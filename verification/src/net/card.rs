//! Which driver's card the stack gets.

use vstd::prelude::*;

verus! {

#[derive(Clone, Copy, PartialEq, Eq, Debug, Structural)]
pub enum Driver {
    E1000,
    Genet,
}

/// What looking for a card does next: ask a driver whether it finds its card,
/// or stop with the driver that did, if one did.
#[derive(Clone, Copy, PartialEq, Eq, Debug, Structural)]
pub enum Probing {
    Ask(Driver),
    Over(Option<Driver>),
}

/// The drivers a machine has, in the order in which they are asked. Only an
/// ARM machine can have the second card.
pub open spec fn drivers(arm: bool) -> Seq<Driver> {
    if arm {
        seq![Driver::E1000, Driver::Genet]
    } else {
        seq![Driver::E1000]
    }
}

/// What comes after the drivers asked so far have answered, each in its turn.
pub open spec fn probing(arm: bool, answers: Seq<bool>) -> Probing {
    if answers.len() == 0 {
        Probing::Ask(Driver::E1000)
    } else if answers[0] {
        Probing::Over(Some(Driver::E1000))
    } else if !arm {
        Probing::Over(None)
    } else if answers.len() == 1 {
        Probing::Ask(Driver::Genet)
    } else if answers[1] {
        Probing::Over(Some(Driver::Genet))
    } else {
        Probing::Over(None)
    }
}

/// Bring up whatever card this machine has, before the first process exists:
/// one step, given what the drivers asked so far have answered.
///
/// Each driver's own probe reports whether it found anything, and finding
/// nothing is the ordinary outcome rather than an error: a machine booted
/// without a card boots without a network. The first one that answers is the
/// one the stack gets, because the stack holds one interface.
pub fn probe(arm: bool, answers: &[bool]) -> (next: Probing)
    ensures
        next == probing(arm, answers@),
{
    if answers.len() == 0 {
        return Probing::Ask(Driver::E1000);
    }
    if answers[0] {
        return Probing::Over(Some(Driver::E1000));
    }
    if !arm {
        return Probing::Over(None);
    }
    if answers.len() == 1 {
        return Probing::Ask(Driver::Genet);
    }
    if answers[1] {
        Probing::Over(Some(Driver::Genet))
    } else {
        Probing::Over(None)
    }
}

/// The driver whose task runs, by which of them holds a card.
pub open spec fn task_of(e1000: bool, genet: bool) -> Option<Driver> {
    if e1000 {
        Some(Driver::E1000)
    } else if genet {
        Some(Driver::Genet)
    } else {
        None
    }
}

/// The driver whose kernel task is started: whichever attached. After init,
/// because process ids are handed out in order.
pub fn start_task(e1000: bool, genet: bool) -> (driver: Option<Driver>)
    ensures
        driver == task_of(e1000, genet),
{
    if e1000 {
        return Some(Driver::E1000);
    }
    if genet {
        return Some(Driver::Genet);
    }
    None
}

/// The drivers are asked one after another until one has found its card, and
/// that is the one the stack gets. Where every driver has answered that it
/// found nothing, the machine has no network. The task that is started is that
/// of the driver the stack got.
pub proof fn the_first_driver_that_answers_is_the_one(arm: bool, answers: Seq<bool>)
    ensures
        match probing(arm, answers) {
            Probing::Ask(driver) => {
                let asked = answers.len() as int;
                &&& asked < drivers(arm).len()
                &&& driver == drivers(arm)[asked]
                &&& forall|i: int| 0 <= i < asked ==> !(#[trigger] answers[i])
            },
            Probing::Over(Some(driver)) => exists|i: int| #[trigger]
                is_first(answers, i) && i < drivers(arm).len() && driver == drivers(arm)[i]
                    && task_of(driver == Driver::E1000, driver == Driver::Genet) == Some(driver),
            Probing::Over(None) => {
                &&& drivers(arm).len() <= answers.len()
                &&& forall|i: int| 0 <= i < drivers(arm).len() ==> !(#[trigger] answers[i])
                &&& task_of(false, false) is None
            },
        },
{
    if probing(arm, answers) == Probing::Over(Some(Driver::E1000)) {
        assert(is_first(answers, 0));
    }
    if probing(arm, answers) == Probing::Over(Some(Driver::Genet)) {
        assert(is_first(answers, 1));
    }
}

/// The first answer that is yes.
pub open spec fn is_first(answers: Seq<bool>, i: int) -> bool {
    &&& 0 <= i < answers.len()
    &&& answers[i]
    &&& forall|j: int| 0 <= j < i ==> !(#[trigger] answers[j])
}

} // verus!
