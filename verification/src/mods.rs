//! The rule by which the compile hook combines the answers of the registered
//! mods: they are asked in registration order, and the first answer that is
//! not `Continue` decides (the mods after it are not asked).
use vstd::prelude::*;

verus! {

/// What a mod answers on a compile call.
#[derive(Debug, Clone, Copy, PartialEq, Eq, Structural)]
pub enum ModAction {
    /// Go on normally.
    Continue,
    /// Skip the original call.
    Abort,
}

/// The position of the first answer that is not `Continue`.
pub open spec fn first_decisive(answers: Seq<ModAction>) -> Option<nat>
    decreases answers.len(),
{
    if answers.len() == 0 {
        None
    } else if answers[0] != ModAction::Continue {
        Some(0)
    } else {
        match first_decisive(answers.drop_first()) {
            Some(k) => Some(k + 1),
            None => None,
        }
    }
}

/// The outcome of a compile call's hooks given the mods' answers in
/// registration order, and how many mods were asked: up to and including
/// the first answer that is not `Continue`, which is the outcome; when
/// every mod passes, all were asked and the outcome is `Continue`.
pub fn hook_outcome(answers: &[ModAction]) -> (r: (ModAction, usize))
    ensures
        match first_decisive(answers@) {
            None => r == (ModAction::Continue, answers@.len() as usize),
            Some(i) => r == (answers@[i as int], (i + 1) as usize),
        },
{
    let mut i: usize = 0;
    assert(answers@.skip(0) =~= answers@);
    while i < answers.len()
        invariant
            i <= answers@.len(),
            first_decisive(answers@) == match first_decisive(answers@.skip(i as int)) {
                Some(k) => Some((k + i) as nat),
                None => None,
            },
        decreases answers@.len() - i,
    {
        assert(answers@.skip(i as int)[0] == answers@[i as int]);
        if answers[i] != ModAction::Continue {
            return (answers[i], i + 1);
        }
        assert(answers@.skip(i as int).drop_first() =~= answers@.skip(i + 1));
        i = i + 1;
    }
    assert(answers@.skip(i as int).len() == 0);
    (ModAction::Continue, i)
}

/// The first decisive answer is where the mods' answers stop being
/// `Continue`: every answer before it is `Continue`, and with none, all are.
pub proof fn lemma_first_decisive(answers: Seq<ModAction>)
    ensures
        match first_decisive(answers) {
            None => forall|j: int| 0 <= j < answers.len() ==> answers[j] == ModAction::Continue,
            Some(i) => i < answers.len() && answers[i as int] != ModAction::Continue && forall|j: int|
                0 <= j < i ==> answers[j] == ModAction::Continue,
        },
    decreases answers.len(),
{
    if answers.len() > 0 {
        lemma_first_decisive(answers.drop_first());
        if answers[0] == ModAction::Continue {
            assert forall|j: int| 1 <= j < answers.len() implies answers[j] == answers.drop_first()[j - 1] by {}
        }
    }
}

} // verus!
