use vstd::prelude::*;

use crate::evaluator::{
    BorrowState, EvalError, EvalModel, MutRef, Ref, SlotModel, held, lemma_lookup_in_range, lookup_in,
    state_counts,
};
use crate::value::ValueModel;

verus! {

/// How many shared borrows a borrow state records.
pub open spec fn shared_count(st: BorrowState) -> nat {
    match st {
        BorrowState::Shared(n) => n as nat,
        _ => 0,
    }
}

/// Two arenas whose slots carry the same names, slot by slot, resolve every
/// name to the same slot.
pub proof fn lemma_lookup_same_names(a: Seq<SlotModel>, b: Seq<SlotModel>, name: Seq<char>)
    requires
        a.len() == b.len(),
        forall|j: int| 0 <= j < a.len() ==> #[trigger] a[j].name == b[j].name,
    ensures
        lookup_in(a, name) == lookup_in(b, name),
    decreases a.len(),
{
    if a.len() > 0 {
        assert(a.last().name == b.last().name);
        assert forall|j: int| 0 <= j < a.drop_last().len() implies #[trigger] a.drop_last()[j].name
            == b.drop_last()[j].name by {
            assert(a.drop_last()[j] == a[j]);
            assert(b.drop_last()[j] == b[j]);
        }
        lemma_lookup_same_names(a.drop_last(), b.drop_last(), name);
    }
}

/// A slot is never held by shared borrows and by an exclusive borrow at
/// once: its borrow state is free, shared by as many borrows as are held
/// on it (at least one), or exclusive to the one borrow held on it.
pub proof fn borrow_state_is_exclusive_or_shared(m: EvalModel, i: int)
    requires
        m.wf(),
        0 <= i < m.slots.len(),
    ensures
        !(held(m.loans, i, false) > 0 && held(m.loans, i, true) > 0),
        !(shared_count(m.slots[i].state) > 0 && m.slots[i].state == BorrowState::Exclusive),
        shared_count(m.slots[i].state) == held(m.loans, i, false),
        m.slots[i].state == BorrowState::Exclusive <==> held(m.loans, i, true) == 1,
        m.slots[i].state == BorrowState::Free <==> held(m.loans, i, false) + held(m.loans, i, true) == 0,
{
    assert(state_counts(m.slots[i].state, held(m.loans, i, false), held(m.loans, i, true)));
}

/// Binding a name twice in one scope shadows: the name then reads as the
/// second value.
pub proof fn second_bind_shadows_first(
    m: EvalModel,
    name: Seq<char>,
    v1: ValueModel,
    mut1: bool,
    v2: ValueModel,
    mut2: bool,
)
    ensures
        m.bind(name, v1, mut1).bind(name, v2, mut2).read(name) == Ok::<ValueModel, EvalError>(v2),
{
    let m2 = m.bind(name, v1, mut1).bind(name, v2, mut2);
    assert(m2.slots.last().name == name);
}

/// Bindings made in an inner scope are gone once it is closed: with no borrow
/// taken inside it, closing the scope gives back the evaluator as it was, so
/// an outer binding of the same name is visible again.
pub proof fn exit_scope_restores_outer_binding(
    m: EvalModel,
    name: Seq<char>,
    v1: ValueModel,
    mut1: bool,
    v2: ValueModel,
    mut2: bool,
)
    requires
        m.wf(),
    ensures
        m.enter_scope().bind(name, v1, mut1).bind(name, v2, mut2).exit_scope().0 == m,
        m.enter_scope().bind(name, v1, mut1).bind(name, v2, mut2).exit_scope().0.read(name) == m.read(
            name,
        ),
{
    let inner = m.enter_scope().bind(name, v1, mut1).bind(name, v2, mut2);
    assert(inner.loans.subrange(inner.frames.last().loan_start as int, inner.loans.len() as int)
        =~= Seq::<crate::evaluator::Loan>::empty());
    assert(inner.released_slots() == inner.slots);
    assert(inner.slots.subrange(0, m.slots.len() as int) =~= m.slots);
    assert(inner.loans.subrange(0, m.loans.len() as int) =~= m.loans);
    assert(inner.frames.drop_last() =~= m.frames);
    assert(inner.exit_scope().0 =~= m);
}

/// Moving a value that is not copied leaves its name unusable: reading or
/// borrowing it then fails with `UseAfterMove`.
pub proof fn move_of_non_copy_value_forbids_use(m: EvalModel, name: Seq<char>)
    requires
        m.wf(),
        m.lookup(name) is Some,
        !m.slots[m.lookup(name).unwrap()].moved,
        m.slots[m.lookup(name).unwrap()].state == BorrowState::Free,
        !m.slots[m.lookup(name).unwrap()].value.is_copy(),
    ensures
        m.move_out(name).1 == Ok::<ValueModel, EvalError>(m.slots[m.lookup(name).unwrap()].value),
        m.move_out(name).0.read(name) == Err::<ValueModel, EvalError>(EvalError::UseAfterMove),
        m.move_out(name).0.borrow(name).1 == Err::<Ref, EvalError>(EvalError::UseAfterMove),
        m.move_out(name).0.borrow_mut(name).1 == Err::<MutRef, EvalError>(
            EvalError::UseAfterMove,
        ),
        m.move_out(name).0.move_out(name).1 == Err::<ValueModel, EvalError>(EvalError::UseAfterMove),
{
    let i = m.lookup(name).unwrap();
    lemma_lookup_in_range(m.slots, name);
    let m1 = m.move_out(name).0;
    lemma_lookup_same_names(m1.slots, m.slots, name);
}

/// Moving a value that is copied changes nothing: the slot is not marked
/// moved and the name reads as before.
pub proof fn move_of_copy_value_keeps_name_readable(m: EvalModel, name: Seq<char>)
    requires
        m.wf(),
        m.lookup(name) is Some,
        m.slots[m.lookup(name).unwrap()].value.is_copy(),
    ensures
        m.move_out(name).0 == m,
        m.move_out(name).1 is Ok ==> m.move_out(name).0.read(name) == m.move_out(name).1,
{
}

/// Assigning to a binding that is not mutable fails with `ImmutableBinding`,
/// whatever the value, and changes nothing.
pub proof fn assign_to_immutable_fails(m: EvalModel, name: Seq<char>, v: ValueModel)
    requires
        m.lookup(name) is Some,
        !m.slots[m.lookup(name).unwrap()].mutable,
    ensures
        m.assign(name, v) == (m, Err::<(), EvalError>(EvalError::ImmutableBinding)),
{
}

/// An exclusive borrow is refused while a shared borrow is held.
pub proof fn borrow_mut_conflicts_with_shared(m: EvalModel, name: Seq<char>)
    requires
        m.lookup(name) is Some,
        !m.slots[m.lookup(name).unwrap()].moved,
        m.slots[m.lookup(name).unwrap()].state is Shared,
    ensures
        m.borrow_mut(name) == (m, Err::<MutRef, EvalError>(EvalError::BorrowConflict)),
{
}

/// Once the only shared borrow of a slot is released, an exclusive borrow of
/// it succeeds.
pub proof fn borrow_mut_succeeds_after_release(m: EvalModel, name: Seq<char>)
    requires
        m.wf(),
        m.lookup(name) is Some,
        !m.slots[m.lookup(name).unwrap()].moved,
        m.slots[m.lookup(name).unwrap()].state == BorrowState::Free,
    ensures
        m.borrow(name).1 is Ok,
        m.borrow(name).0.borrow_mut(name).1 == Err::<MutRef, EvalError>(
            EvalError::BorrowConflict,
        ),
        ({
            let (m1, r) = m.borrow(name);
            let rf = r.unwrap();
            let (m2, e) = m1.end_loan(rf.loan, rf.token, false);
            e is Ok && m2.borrow_mut(name).1 is Ok
        }),
{
    let i = m.lookup(name).unwrap();
    lemma_lookup_in_range(m.slots, name);
    let (m1, r) = m.borrow(name);
    lemma_lookup_same_names(m1.slots, m.slots, name);
    let rf = r.unwrap();
    assert(m1.loan_live(rf.loan, rf.token, false));
    let (m2, e) = m1.end_loan(rf.loan, rf.token, false);
    assert(m2.slots[i].state == BorrowState::Free);
    lemma_lookup_same_names(m2.slots, m.slots, name);
}

/// A shared borrow taken in a scope dangles once that scope is closed.
pub proof fn borrow_dangles_after_its_scope(m: EvalModel, name: Seq<char>, v: ValueModel, mutable: bool)
    requires
        m.wf(),
        m.loans.len() < usize::MAX,
    ensures
        m.enter_scope().bind(name, v, mutable).borrow(name).1 is Ok,
        ({
            let (m1, r) = m.enter_scope().bind(name, v, mutable).borrow(name);
            m1.exit_scope().0.read_ref(r.unwrap()) == Err::<ValueModel, EvalError>(
                EvalError::DanglingReference,
            )
        }),
{
    let m0 = m.enter_scope().bind(name, v, mutable);
    assert(m0.slots.last().name == name);
}

} // verus!
