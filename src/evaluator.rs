use vstd::prelude::*;

use crate::value::{Value, ValueModel};

verus! {

/// How a slot is borrowed at the moment.
#[derive(Debug, Clone, Copy, PartialEq, Eq, Structural)]
pub enum BorrowState {
    Free,
    /// Held by this many shared borrows (at least one).
    Shared(u64),
    /// Held by exactly one exclusive borrow.
    Exclusive,
}

/// Why an operation of the evaluator was refused.
#[derive(Debug, Clone, Copy, PartialEq, Eq, Structural)]
pub enum EvalError {
    UnboundName,
    UseAfterMove,
    BorrowConflict,
    CannotMoveBorrowed,
    ImmutableBinding,
    DanglingReference,
}

/// A storage cell of the arena: one value and what is known about its use.
pub struct Slot {
    name: String,
    value: Value,
    mutable: bool,
    moved: bool,
    state: BorrowState,
}

/// The mathematical content of a `Slot`.
pub struct SlotModel {
    pub name: Seq<char>,
    pub value: ValueModel,
    pub mutable: bool,
    pub moved: bool,
    pub state: BorrowState,
}

impl View for Slot {
    type V = SlotModel;

    closed spec fn view(&self) -> SlotModel {
        SlotModel {
            name: self.name@,
            value: self.value@,
            mutable: self.mutable,
            moved: self.moved,
            state: self.state,
        }
    }
}

/// A borrow taken through the evaluator, in the order in which borrows were
/// taken. A released borrow stays in place, inactive, until its scope ends.
#[derive(Debug, Clone, Copy, PartialEq, Eq, Structural)]
pub struct Loan {
    pub slot: usize,
    pub token: u64,
    pub exclusive: bool,
    pub active: bool,
}

/// A lexical scope: where its slots and its loans begin.
#[derive(Debug, Clone, Copy, PartialEq, Eq, Structural)]
pub struct Frame {
    pub slot_start: usize,
    pub loan_start: usize,
}

/// A handle on a shared borrow.
#[derive(Debug, Clone, Copy, PartialEq, Eq, Structural)]
pub struct Ref {
    pub loan: usize,
    pub token: u64,
}

/// A handle on an exclusive borrow.
#[derive(Debug, Clone, Copy, PartialEq, Eq, Structural)]
pub struct MutRef {
    pub loan: usize,
    pub token: u64,
}

/// Tracks bindings, moves and borrows over a stack of lexical scopes.
///
/// Slots live in an arena in binding order; the slots of a scope are the
/// suffix of the arena that was bound while it was the innermost scope, so
/// a name resolves to the last slot bound under it.
pub struct ScopeEvaluator {
    slots: Vec<Slot>,
    frames: Vec<Frame>,
    loans: Vec<Loan>,
    next_token: u64,
}

/// The mathematical content of a `ScopeEvaluator`.
#[verifier::ext_equal]
pub struct EvalModel {
    pub slots: Seq<SlotModel>,
    pub frames: Seq<Frame>,
    pub loans: Seq<Loan>,
    pub next_token: u64,
}

impl View for ScopeEvaluator {
    type V = EvalModel;

    closed spec fn view(&self) -> EvalModel {
        EvalModel {
            slots: self.slots@.map_values(|s: Slot| s@),
            frames: self.frames@,
            loans: self.loans@,
            next_token: self.next_token,
        }
    }
}

/// The index of the last slot bound under `name`.
pub open spec fn lookup_in(slots: Seq<SlotModel>, name: Seq<char>) -> Option<int>
    decreases slots.len(),
{
    if slots.len() == 0 {
        None
    } else if slots.last().name == name {
        Some(slots.len() - 1)
    } else {
        lookup_in(slots.drop_last(), name)
    }
}

/// The state of a slot once one of its borrows is released.
pub open spec fn release_state(st: BorrowState, exclusive: bool) -> BorrowState {
    if exclusive {
        match st {
            BorrowState::Exclusive => BorrowState::Free,
            _ => st,
        }
    } else {
        match st {
            BorrowState::Shared(n) => if n <= 1 {
                BorrowState::Free
            } else {
                BorrowState::Shared((n - 1) as u64)
            },
            _ => st,
        }
    }
}

/// Slot `s` with its borrow state set to `st`.
pub open spec fn with_state(s: SlotModel, st: BorrowState) -> SlotModel {
    SlotModel { state: st, ..s }
}

/// The slots once loan `l` is released, if it is still held.
pub open spec fn release_one(slots: Seq<SlotModel>, l: Loan) -> Seq<SlotModel> {
    if l.active && l.slot < slots.len() {
        slots.update(l.slot as int, with_state(slots[l.slot as int], release_state(slots[l.slot as int].state, l.exclusive)))
    } else {
        slots
    }
}

/// The slots once every loan of `ls` is released, the last loan first.
pub open spec fn release_all(slots: Seq<SlotModel>, ls: Seq<Loan>) -> Seq<SlotModel>
    decreases ls.len(),
{
    if ls.len() == 0 {
        slots
    } else {
        release_one(release_all(slots, ls.drop_first()), ls[0])
    }
}

/// The names of the slots from index `start` on, the last bound first.
pub open spec fn names_from(slots: Seq<SlotModel>, start: int) -> Seq<Seq<char>> {
    Seq::new((slots.len() - start) as nat, |k: int| slots[slots.len() - 1 - k].name)
}

impl EvalModel {
    /// The root scope is open, the scopes begin in order within the arena and
    /// the loans, and the loans agree with the slots' borrow states.
    pub open spec fn wf(self) -> bool {
        &&& self.frames.len() >= 1
        &&& self.slots.len() <= usize::MAX
        &&& self.loans.len() <= usize::MAX
        &&& forall|i: int|
            0 <= i < self.frames.len() ==> (#[trigger] self.frames[i]).slot_start <= self.slots.len()
                && self.frames[i].loan_start <= self.loans.len()
        &&& forall|i: int, j: int|
            0 <= i < j < self.frames.len() ==> (#[trigger] self.frames[i]).slot_start
                <= (#[trigger] self.frames[j]).slot_start && self.frames[i].loan_start
                <= self.frames[j].loan_start
        &&& self.loans_agree()
    }

    /// Every loan names a slot of the arena, a loan taken before a scope was
    /// opened names a slot bound before it, and each slot's borrow state
    /// counts exactly the loans still held on it.
    pub open spec fn loans_agree(self) -> bool {
        &&& forall|k: int| 0 <= k < self.loans.len() ==> (#[trigger] self.loans[k]).slot < self.slots.len()
        &&& forall|j: int, k: int|
            0 <= j < self.frames.len() && 0 <= k < self.frames[j].loan_start ==> (
            #[trigger] self.loans[k]).slot < (#[trigger] self.frames[j]).slot_start
        &&& forall|i: int|
            0 <= i < self.slots.len() ==> state_counts(
                (#[trigger] self.slots[i]).state,
                held(self.loans, i, false),
                held(self.loans, i, true),
            )
    }

    /// The slot that `name` resolves to: the innermost binding of it.
    pub open spec fn lookup(self, name: Seq<char>) -> Option<int> {
        lookup_in(self.slots, name)
    }

    /// A new slot, not moved and not borrowed, bound under `name` last.
    pub open spec fn bind(self, name: Seq<char>, value: ValueModel, mutable: bool) -> EvalModel {
        EvalModel {
            slots: self.slots.push(
                SlotModel { name, value, mutable, moved: false, state: BorrowState::Free },
            ),
            ..self
        }
    }

    /// The value bound to `name`; an unbound name and a moved slot are
    /// refused.
    pub open spec fn read(self, name: Seq<char>) -> Result<ValueModel, EvalError> {
        match self.lookup(name) {
            None => Err(EvalError::UnboundName),
            Some(i) => if self.slots[i].moved {
                Err(EvalError::UseAfterMove)
            } else {
                Ok(self.slots[i].value)
            },
        }
    }
}


/// The token that follows `t`; tokens wrap around.
pub open spec fn next_token_after(t: u64) -> u64 {
    if t == u64::MAX {
        0
    } else {
        (t + 1) as u64
    }
}

/// A result with its value replaced by the value's model.
pub open spec fn value_result(r: Result<Value, EvalError>) -> Result<ValueModel, EvalError> {
    match r {
        Ok(v) => Ok(v@),
        Err(e) => Err(e),
    }
}

impl EvalModel {
    /// Moves the value bound to `name` out: refused where the name is
    /// unbound, the slot moved, or the slot borrowed; a value that is not
    /// copied leaves its slot moved.
    pub open spec fn move_out(self, name: Seq<char>) -> (EvalModel, Result<ValueModel, EvalError>) {
        match self.lookup(name) {
            None => (self, Err(EvalError::UnboundName)),
            Some(i) => if self.slots[i].moved {
                (self, Err(EvalError::UseAfterMove))
            } else if self.slots[i].state != BorrowState::Free {
                (self, Err(EvalError::CannotMoveBorrowed))
            } else if self.slots[i].value.is_copy() {
                (self, Ok(self.slots[i].value))
            } else {
                (
                    EvalModel {
                        slots: self.slots.update(i, SlotModel { moved: true, ..self.slots[i] }),
                        ..self
                    },
                    Ok(self.slots[i].value),
                )
            },
        }
    }

    /// A shared borrow of the slot bound to `name`: refused where the name is
    /// unbound or the slot moved, and as a conflict where the slot is borrowed
    /// exclusively or its count of shared borrows is at its largest.
    pub open spec fn borrow(self, name: Seq<char>) -> (EvalModel, Result<Ref, EvalError>) {
        match self.lookup(name) {
            None => (self, Err(EvalError::UnboundName)),
            Some(i) => if self.slots[i].moved {
                (self, Err(EvalError::UseAfterMove))
            } else if self.slots[i].state == BorrowState::Exclusive || self.slots[i].state
                == BorrowState::Shared(u64::MAX) {
                (self, Err(EvalError::BorrowConflict))
            } else {
                let ns = match self.slots[i].state {
                    BorrowState::Shared(n) => BorrowState::Shared((n + 1) as u64),
                    _ => BorrowState::Shared(1),
                };
                (
                    EvalModel {
                        slots: self.slots.update(i, with_state(self.slots[i], ns)),
                        loans: self.loans.push(
                            Loan { slot: i as usize, token: self.next_token, exclusive: false, active: true },
                        ),
                        next_token: next_token_after(self.next_token),
                        ..self
                    },
                    Ok(Ref { loan: self.loans.len() as usize, token: self.next_token }),
                )
            },
        }
    }

    /// The exclusive borrow of the slot bound to `name`: refused where the
    /// name is unbound or the slot moved, and as a conflict where the slot is
    /// borrowed at all.
    pub open spec fn borrow_mut(self, name: Seq<char>) -> (EvalModel, Result<MutRef, EvalError>) {
        match self.lookup(name) {
            None => (self, Err(EvalError::UnboundName)),
            Some(i) => if self.slots[i].moved {
                (self, Err(EvalError::UseAfterMove))
            } else if self.slots[i].state != BorrowState::Free {
                (self, Err(EvalError::BorrowConflict))
            } else {
                (
                    EvalModel {
                        slots: self.slots.update(i, with_state(self.slots[i], BorrowState::Exclusive)),
                        loans: self.loans.push(
                            Loan { slot: i as usize, token: self.next_token, exclusive: true, active: true },
                        ),
                        next_token: next_token_after(self.next_token),
                        ..self
                    },
                    Ok(MutRef { loan: self.loans.len() as usize, token: self.next_token }),
                )
            },
        }
    }

    /// A new value for the slot bound to `name`: refused where the name is
    /// unbound, the binding is not mutable, or the slot is borrowed.
    pub open spec fn assign(self, name: Seq<char>, value: ValueModel) -> (EvalModel, Result<(), EvalError>) {
        match self.lookup(name) {
            None => (self, Err(EvalError::UnboundName)),
            Some(i) => if !self.slots[i].mutable {
                (self, Err(EvalError::ImmutableBinding))
            } else if self.slots[i].state != BorrowState::Free {
                (self, Err(EvalError::BorrowConflict))
            } else {
                (
                    EvalModel {
                        slots: self.slots.update(i, SlotModel { value, moved: false, ..self.slots[i] }),
                        ..self
                    },
                    Ok(()),
                )
            },
        }
    }

    /// A new innermost scope, which begins where the arena and the loans end.
    pub open spec fn enter_scope(self) -> EvalModel {
        EvalModel {
            frames: self.frames.push(
                Frame { slot_start: self.slots.len() as usize, loan_start: self.loans.len() as usize },
            ),
            ..self
        }
    }

    /// The slots once the borrows taken in the innermost scope are released.
    pub open spec fn released_slots(self) -> Seq<SlotModel> {
        release_all(self.slots, self.loans.subrange(self.frames.last().loan_start as int, self.loans.len() as int))
    }

    /// Closes the innermost scope: its loans are released, the last first,
    /// then its loans and its slots are dropped; the names of its slots are
    /// given in the order in which they are dropped.
    pub open spec fn exit_scope(self) -> (EvalModel, Seq<Seq<char>>) {
        let f = self.frames.last();
        let released = self.released_slots();
        (
            EvalModel {
                slots: released.subrange(0, f.slot_start as int),
                frames: self.frames.drop_last(),
                loans: self.loans.subrange(0, f.loan_start as int),
                ..self
            },
            names_from(released, f.slot_start as int),
        )
    }

    /// Whether loan `loan`, taken with `token`, is still held.
    pub open spec fn loan_live(self, loan: usize, token: u64, exclusive: bool) -> bool {
        &&& loan < self.loans.len()
        &&& self.loans[loan as int].token == token
        &&& self.loans[loan as int].active
        &&& self.loans[loan as int].exclusive == exclusive
        &&& self.loans[loan as int].slot < self.slots.len()
    }

    /// The slot that loan `loan` is held on.
    pub open spec fn loan_slot(self, loan: usize) -> int {
        self.loans[loan as int].slot as int
    }

    /// The value seen through the shared borrow `r`, if it is still held.
    pub open spec fn read_ref(self, r: Ref) -> Result<ValueModel, EvalError> {
        if self.loan_live(r.loan, r.token, false) {
            Ok(self.slots[self.loan_slot(r.loan)].value)
        } else {
            Err(EvalError::DanglingReference)
        }
    }

    /// The value seen through the exclusive borrow `r`, if it is still held.
    pub open spec fn read_mut(self, r: MutRef) -> Result<ValueModel, EvalError> {
        if self.loan_live(r.loan, r.token, true) {
            Ok(self.slots[self.loan_slot(r.loan)].value)
        } else {
            Err(EvalError::DanglingReference)
        }
    }

    /// Writes `value` through the exclusive borrow `r`, if it is still held.
    pub open spec fn write_mut(self, r: MutRef, value: ValueModel) -> (EvalModel, Result<(), EvalError>) {
        if self.loan_live(r.loan, r.token, true) {
            let i = self.loan_slot(r.loan);
            (
                EvalModel {
                    slots: self.slots.update(i, SlotModel { value, moved: false, ..self.slots[i] }),
                    ..self
                },
                Ok(()),
            )
        } else {
            (self, Err(EvalError::DanglingReference))
        }
    }

    /// Releases the loan `loan`, taken with `token`, if it is still held.
    pub open spec fn end_loan(self, loan: usize, token: u64, exclusive: bool) -> (EvalModel, Result<(), EvalError>) {
        if self.loan_live(loan, token, exclusive) {
            let l = self.loans[loan as int];
            (
                EvalModel {
                    slots: release_one(self.slots, l),
                    loans: self.loans.update(loan as int, Loan { active: false, ..l }),
                    ..self
                },
                Ok(()),
            )
        } else {
            (self, Err(EvalError::DanglingReference))
        }
    }
}

proof fn lemma_release_one(slots: Seq<SlotModel>, l: Loan)
    ensures
        release_one(slots, l).len() == slots.len(),
        forall|j: int|
            0 <= j < slots.len() ==> {
                let t = #[trigger] release_one(slots, l)[j];
                &&& t.name == slots[j].name
                &&& t.value == slots[j].value
                &&& t.mutable == slots[j].mutable
                &&& t.moved == slots[j].moved
                &&& (slots[j].state != BorrowState::Shared(0) ==> t.state != BorrowState::Shared(0))
            },
{
}

proof fn lemma_release_all(slots: Seq<SlotModel>, ls: Seq<Loan>)
    ensures
        release_all(slots, ls).len() == slots.len(),
        forall|j: int|
            0 <= j < slots.len() ==> {
                let t = #[trigger] release_all(slots, ls)[j];
                &&& t.name == slots[j].name
                &&& t.value == slots[j].value
                &&& t.mutable == slots[j].mutable
                &&& t.moved == slots[j].moved
                &&& (slots[j].state != BorrowState::Shared(0) ==> t.state != BorrowState::Shared(0))
            },
    decreases ls.len(),
{
    if ls.len() > 0 {
        lemma_release_all(slots, ls.drop_first());
        lemma_release_one(release_all(slots, ls.drop_first()), ls[0]);
    }
}

/// Whether loan `l` is held, on slot `slot`, of the kind `exclusive`.
pub open spec fn holds(l: Loan, slot: int, exclusive: bool) -> nat {
    if l.active && l.slot == slot && l.exclusive == exclusive {
        1
    } else {
        0
    }
}

/// How many loans of `ls` are held on slot `slot`, of the kind `exclusive`.
pub open spec fn held(ls: Seq<Loan>, slot: int, exclusive: bool) -> nat
    decreases ls.len(),
{
    if ls.len() == 0 {
        0
    } else {
        held(ls.drop_last(), slot, exclusive) + holds(ls.last(), slot, exclusive)
    }
}

/// Whether a borrow state records `shared` shared loans and `excl`
/// exclusive ones.
pub open spec fn state_counts(st: BorrowState, shared: nat, excl: nat) -> bool {
    match st {
        BorrowState::Free => shared == 0 && excl == 0,
        BorrowState::Shared(n) => shared == n && n >= 1 && excl == 0,
        BorrowState::Exclusive => shared == 0 && excl == 1,
    }
}

proof fn lemma_held_push(ls: Seq<Loan>, l: Loan, slot: int, exclusive: bool)
    ensures
        held(ls.push(l), slot, exclusive) == held(ls, slot, exclusive) + holds(l, slot, exclusive),
{
    assert(ls.push(l).drop_last() =~= ls);
}

proof fn lemma_held_none(ls: Seq<Loan>, slot: int, exclusive: bool)
    requires
        forall|k: int| 0 <= k < ls.len() ==> (#[trigger] ls[k]).slot < slot,
    ensures
        held(ls, slot, exclusive) == 0,
    decreases ls.len(),
{
    if ls.len() > 0 {
        assert(ls.last() == ls[ls.len() - 1]);
        assert forall|k: int| 0 <= k < ls.drop_last().len() implies (#[trigger] ls.drop_last()[k]).slot
            < slot by {
            assert(ls.drop_last()[k] == ls[k]);
        }
        lemma_held_none(ls.drop_last(), slot, exclusive);
    }
}

proof fn lemma_held_deactivate(ls: Seq<Loan>, idx: int, slot: int, exclusive: bool)
    requires
        0 <= idx < ls.len(),
    ensures
        held(ls, slot, exclusive) == held(ls.update(idx, Loan { active: false, ..ls[idx] }), slot, exclusive)
            + holds(ls[idx], slot, exclusive),
    decreases ls.len(),
{
    let u = ls.update(idx, Loan { active: false, ..ls[idx] });
    if idx == ls.len() - 1 {
        assert(u.drop_last() =~= ls.drop_last());
    } else {
        assert(u.drop_last() =~= ls.drop_last().update(idx, Loan { active: false, ..ls[idx] }));
        assert(ls.drop_last()[idx] == ls[idx]);
        lemma_held_deactivate(ls.drop_last(), idx, slot, exclusive);
    }
}

/// Releasing loan `l` takes the slot states from the counts of `before` to
/// those of `after`, where `before` holds `l` and `after` does not.
proof fn lemma_release_counts(slots: Seq<SlotModel>, before: Seq<Loan>, after: Seq<Loan>, l: Loan)
    requires
        l.slot < slots.len(),
        forall|i: int, e: bool| #[trigger] held(before, i, e) == held(after, i, e) + holds(l, i, e),
        forall|i: int|
            0 <= i < slots.len() ==> state_counts(
                (#[trigger] slots[i]).state,
                held(before, i, false),
                held(before, i, true),
            ),
    ensures
        forall|i: int|
            0 <= i < slots.len() ==> state_counts(
                (#[trigger] release_one(slots, l)[i]).state,
                held(after, i, false),
                held(after, i, true),
            ),
{
    assert forall|i: int| 0 <= i < slots.len() implies state_counts(
        (#[trigger] release_one(slots, l)[i]).state,
        held(after, i, false),
        held(after, i, true),
    ) by {
        assert(state_counts(slots[i].state, held(before, i, false), held(before, i, true)));
        assert(held(before, i, false) == held(after, i, false) + holds(l, i, false));
        assert(held(before, i, true) == held(after, i, true) + holds(l, i, true));
    }
}

proof fn lemma_release_all_counts(slots: Seq<SlotModel>, loans: Seq<Loan>, i: int)
    requires
        0 <= i <= loans.len(),
        forall|k: int| 0 <= k < loans.len() ==> (#[trigger] loans[k]).slot < slots.len(),
        forall|s: int|
            0 <= s < slots.len() ==> state_counts(
                (#[trigger] slots[s]).state,
                held(loans, s, false),
                held(loans, s, true),
            ),
    ensures
        forall|s: int|
            0 <= s < slots.len() ==> state_counts(
                (#[trigger] release_all(slots, loans.subrange(i, loans.len() as int))[s]).state,
                held(loans.subrange(0, i), s, false),
                held(loans.subrange(0, i), s, true),
            ),
    decreases loans.len() - i,
{
    if i == loans.len() {
        assert(loans.subrange(i, loans.len() as int) =~= Seq::<Loan>::empty());
        assert(loans.subrange(0, i) =~= loans);
    } else {
        lemma_release_all_counts(slots, loans, i + 1);
        let tail = loans.subrange(i, loans.len() as int);
        assert(tail.drop_first() =~= loans.subrange(i + 1, loans.len() as int));
        assert(tail[0] == loans[i]);
        let mid = release_all(slots, loans.subrange(i + 1, loans.len() as int));
        lemma_release_all(slots, loans.subrange(i + 1, loans.len() as int));
        assert(loans.subrange(0, i + 1) =~= loans.subrange(0, i).push(loans[i]));
        assert forall|s: int, e: bool| #[trigger] held(loans.subrange(0, i + 1), s, e) == held(
            loans.subrange(0, i),
            s,
            e,
        ) + holds(loans[i], s, e) by {
            lemma_held_push(loans.subrange(0, i), loans[i], s, e);
        }
        lemma_release_counts(mid, loans.subrange(0, i + 1), loans.subrange(0, i), loans[i]);
    }
}

/// Where a name resolves, it resolves to a slot of the arena bound under it.
pub proof fn lemma_lookup_in_range(a: Seq<SlotModel>, name: Seq<char>)
    ensures
        lookup_in(a, name) matches Some(i) ==> 0 <= i < a.len() && a[i].name == name,
    decreases a.len(),
{
    if a.len() > 0 {
        lemma_lookup_in_range(a.drop_last(), name);
    }
}

proof fn lemma_bind_wf(m: EvalModel, name: Seq<char>, value: ValueModel, mutable: bool)
    requires
        m.wf(),
        m.slots.len() < usize::MAX,
    ensures
        m.bind(name, value, mutable).wf(),
{
    let m2 = m.bind(name, value, mutable);
    lemma_held_none(m.loans, m.slots.len() as int, false);
    lemma_held_none(m.loans, m.slots.len() as int, true);
    assert forall|i: int| 0 <= i < m2.slots.len() implies state_counts(
        (#[trigger] m2.slots[i]).state,
        held(m2.loans, i, false),
        held(m2.loans, i, true),
    ) by {
        if i < m.slots.len() {
            assert(m2.slots[i] == m.slots[i]);
        }
    }
    assert forall|i: int| 0 <= i < m2.frames.len() implies (#[trigger] m2.frames[i]).slot_start
        <= m2.slots.len() && m2.frames[i].loan_start <= m2.loans.len() by {
        assert(m.frames[i] == m2.frames[i]);
    }
}

proof fn lemma_take_loan_wf(m: EvalModel, i: int, ns: BorrowState, exclusive: bool)
    requires
        m.wf(),
        m.loans.len() < usize::MAX,
        0 <= i < m.slots.len(),
        state_counts(
            ns,
            held(m.loans, i, false) + (if exclusive { 0nat } else { 1nat }),
            held(m.loans, i, true) + (if exclusive { 1nat } else { 0nat }),
        ),
    ensures
        (EvalModel {
            slots: m.slots.update(i, with_state(m.slots[i], ns)),
            loans: m.loans.push(
                Loan { slot: i as usize, token: m.next_token, exclusive, active: true },
            ),
            next_token: next_token_after(m.next_token),
            ..m
        }).wf(),
{
    let l = Loan { slot: i as usize, token: m.next_token, exclusive, active: true };
    let m2 = EvalModel {
        slots: m.slots.update(i, with_state(m.slots[i], ns)),
        loans: m.loans.push(l),
        next_token: next_token_after(m.next_token),
        ..m
    };
    assert forall|s: int| 0 <= s < m2.slots.len() implies state_counts(
        (#[trigger] m2.slots[s]).state,
        held(m2.loans, s, false),
        held(m2.loans, s, true),
    ) by {
        lemma_held_push(m.loans, l, s, false);
        lemma_held_push(m.loans, l, s, true);
        if s != i {
            assert(m2.slots[s] == m.slots[s]);
        }
    }
    assert forall|k: int| 0 <= k < m2.loans.len() implies (#[trigger] m2.loans[k]).slot < m2.slots.len() by {
        if k < m.loans.len() {
            assert(m2.loans[k] == m.loans[k]);
        }
    }
    assert forall|j: int, k: int|
        0 <= j < m2.frames.len() && 0 <= k < m2.frames[j].loan_start implies (
        #[trigger] m2.loans[k]).slot < (#[trigger] m2.frames[j]).slot_start by {
        assert(m.frames[j].loan_start <= m.loans.len());
        assert(m2.loans[k] == m.loans[k]);
    }
    assert forall|j: int| 0 <= j < m2.frames.len() implies (#[trigger] m2.frames[j]).slot_start
        <= m2.slots.len() && m2.frames[j].loan_start <= m2.loans.len() by {
        assert(m.frames[j] == m2.frames[j]);
    }
}

proof fn lemma_end_loan_wf(m: EvalModel, loan: usize, token: u64, exclusive: bool)
    requires
        m.wf(),
    ensures
        m.end_loan(loan, token, exclusive).0.wf(),
{
    if m.loan_live(loan, token, exclusive) {
        let l = m.loans[loan as int];
        let after = m.loans.update(loan as int, Loan { active: false, ..l });
        let m2 = m.end_loan(loan, token, exclusive).0;
        assert forall|i: int, e: bool| #[trigger] held(m.loans, i, e) == held(after, i, e) + holds(l, i, e) by {
            lemma_held_deactivate(m.loans, loan as int, i, e);
        }
        lemma_release_counts(m.slots, m.loans, after, l);
        lemma_release_one(m.slots, l);
        assert forall|k: int| 0 <= k < m2.loans.len() implies (#[trigger] m2.loans[k]).slot < m2.slots.len() by {
            assert(m.loans[k].slot == m2.loans[k].slot);
        }
        assert forall|j: int, k: int|
            0 <= j < m2.frames.len() && 0 <= k < m2.frames[j].loan_start implies (
            #[trigger] m2.loans[k]).slot < (#[trigger] m2.frames[j]).slot_start by {
            assert(m.loans[k].slot == m2.loans[k].slot);
        }
    }
}

proof fn lemma_enter_wf(m: EvalModel)
    requires
        m.wf(),
        m.frames.len() < usize::MAX,
    ensures
        m.enter_scope().wf(),
{
    let m2 = m.enter_scope();
    assert forall|j: int, k: int|
        0 <= j < m2.frames.len() && 0 <= k < m2.frames[j].loan_start implies (
        #[trigger] m2.loans[k]).slot < (#[trigger] m2.frames[j]).slot_start by {
        if j < m.frames.len() {
            assert(m2.frames[j] == m.frames[j]);
        }
    }
    assert forall|i: int| 0 <= i < m2.frames.len() implies (#[trigger] m2.frames[i]).slot_start
        <= m2.slots.len() && m2.frames[i].loan_start <= m2.loans.len() by {
        if i < m.frames.len() {
            assert(m2.frames[i] == m.frames[i]);
        }
    }
    assert forall|i: int, j: int| 0 <= i < j < m2.frames.len() implies (#[trigger] m2.frames[i]).slot_start
        <= (#[trigger] m2.frames[j]).slot_start && m2.frames[i].loan_start <= m2.frames[j].loan_start by {
        assert(m2.frames[i] == m.frames[i]);
        if j < m.frames.len() {
            assert(m2.frames[j] == m.frames[j]);
        }
    }
}

proof fn lemma_exit_wf(m: EvalModel)
    requires
        m.wf(),
        m.frames.len() >= 2,
    ensures
        m.exit_scope().0.wf(),
{
    let f = m.frames.last();
    let m2 = m.exit_scope().0;
    let ls = f.loan_start as int;
    let ss = f.slot_start as int;
    assert(m.frames[m.frames.len() - 1] == f);
    lemma_release_all_counts(m.slots, m.loans, ls);
    lemma_release_all(m.slots, m.loans.subrange(ls, m.loans.len() as int));
    let rel = m.released_slots();
    assert forall|i: int| 0 <= i < m2.slots.len() implies state_counts(
        (#[trigger] m2.slots[i]).state,
        held(m2.loans, i, false),
        held(m2.loans, i, true),
    ) by {
        assert(m2.slots[i] == rel[i]);
    }
    assert forall|k: int| 0 <= k < m2.loans.len() implies (#[trigger] m2.loans[k]).slot < m2.slots.len() by {
        assert(m2.loans[k] == m.loans[k]);
    }
    assert forall|j: int, k: int|
        0 <= j < m2.frames.len() && 0 <= k < m2.frames[j].loan_start implies (
        #[trigger] m2.loans[k]).slot < (#[trigger] m2.frames[j]).slot_start by {
        assert(m2.frames[j] == m.frames[j]);
        assert(m.frames[j].loan_start <= f.loan_start);
        assert(m2.loans[k] == m.loans[k]);
    }
    assert forall|j: int| 0 <= j < m2.frames.len() implies (#[trigger] m2.frames[j]).slot_start
        <= m2.slots.len() && m2.frames[j].loan_start <= m2.loans.len() by {
        assert(m2.frames[j] == m.frames[j]);
    }
    assert forall|i: int, j: int| 0 <= i < j < m2.frames.len() implies (#[trigger] m2.frames[i]).slot_start
        <= (#[trigger] m2.frames[j]).slot_start && m2.frames[i].loan_start <= m2.frames[j].loan_start by {
        assert(m2.frames[i] == m.frames[i]);
        assert(m2.frames[j] == m.frames[j]);
    }
}

fn release_exec(st: BorrowState, exclusive: bool) -> (r: BorrowState)
    ensures
        r == release_state(st, exclusive),
{
    if exclusive {
        match st {
            BorrowState::Exclusive => BorrowState::Free,
            _ => st,
        }
    } else {
        match st {
            BorrowState::Shared(n) => if n <= 1 {
                BorrowState::Free
            } else {
                BorrowState::Shared(n - 1)
            },
            _ => st,
        }
    }
}

/// An evaluator with the root scope open and nothing bound.
pub open spec fn new_model() -> EvalModel {
    EvalModel {
        slots: Seq::empty(),
        frames: seq![Frame { slot_start: 0, loan_start: 0 }],
        loans: Seq::empty(),
        next_token: 0,
    }
}

impl ScopeEvaluator {
    /// An evaluator with the root scope open and nothing bound.
    pub fn new() -> (r: ScopeEvaluator)
        ensures
            r@ == new_model(),
            r@.wf(),
    {
        let r = ScopeEvaluator {
            slots: Vec::new(),
            frames: vec![Frame { slot_start: 0, loan_start: 0 }],
            loans: Vec::new(),
            next_token: 0,
        };
        assert(r@ =~= new_model());
        r
    }

    fn resolve(&self, name: &String) -> (r: Option<usize>)
        ensures
            r matches Some(i) ==> self@.lookup(name@) == Some(i as int) && i < self.slots@.len(),
            r is None ==> self@.lookup(name@) is None,
    {
        let ghost m = self@.slots;
        let mut i: usize = self.slots.len();
        assert(m.subrange(0, i as int) =~= m);
        while i > 0
            invariant
                i <= self.slots@.len(),
                m == self@.slots,
                lookup_in(m, name@) == lookup_in(m.subrange(0, i as int), name@),
            decreases i,
        {
            assert(m.subrange(0, i as int).last() == self.slots@[i - 1]@);
            if self.slots[i - 1].name == *name {
                return Some(i - 1);
            }
            assert(m.subrange(0, i as int).drop_last() =~= m.subrange(0, i - 1));
            i = i - 1;
        }
        None
    }

    /// Binds `name` to a new slot in the innermost scope, which shadows any
    /// earlier binding of that name; returns the slot's index.
    pub fn bind(&mut self, name: &str, value: Value, mutable: bool) -> (r: usize)
        requires
            old(self)@.wf(),
        ensures
            final(self)@ == old(self)@.bind(name@, value@, mutable),
            final(self)@.wf(),
            r == old(self)@.slots.len(),
    {
        let r = self.slots.len();
        self.slots.push(
            Slot { name: name.to_owned(), value, mutable, moved: false, state: BorrowState::Free },
        );
        assert(self.slots@.len() == self.slots.len());
        assert(self@ =~= old(self)@.bind(name@, value@, mutable));
        proof {
            lemma_bind_wf(old(self)@, name@, value@, mutable);
        }
        r
    }

    /// A copy of the value bound to `name`.
    pub fn read(&self, name: &str) -> (r: Result<Value, EvalError>)
        ensures
            value_result(r) == self@.read(name@),
    {
        let key = name.to_owned();
        match self.resolve(&key) {
            None => Err(EvalError::UnboundName),
            Some(i) => {
                if self.slots[i].moved {
                    Err(EvalError::UseAfterMove)
                } else {
                    Ok(self.slots[i].value.duplicate())
                }
            },
        }
    }
    /// Moves the value bound to `name` out of its slot. A value that is
    /// copied leaves the slot as it was; any other leaves it moved.
    pub fn move_out(&mut self, name: &str) -> (r: Result<Value, EvalError>)
        requires
            old(self)@.wf(),
        ensures
            (final(self)@, value_result(r)) == old(self)@.move_out(name@),
            final(self)@.wf(),
    {
        let key = name.to_owned();
        match self.resolve(&key) {
            None => Err(EvalError::UnboundName),
            Some(i) => {
                if self.slots[i].moved {
                    Err(EvalError::UseAfterMove)
                } else if self.slots[i].state != BorrowState::Free {
                    Err(EvalError::CannotMoveBorrowed)
                } else {
                    let v = self.slots[i].value.duplicate();
                    if !self.slots[i].value.is_copy() {
                        self.slots[i].moved = true;
                        assert(self@ =~= old(self)@.move_out(name@).0);
                    }
                    Ok(v)
                }
            },
        }
    }

    /// Takes a shared borrow of the slot bound to `name`.
    pub fn borrow(&mut self, name: &str) -> (r: Result<Ref, EvalError>)
        requires
            old(self)@.wf(),
        ensures
            (final(self)@, r) == old(self)@.borrow(name@),
            final(self)@.wf(),
    {
        let key = name.to_owned();
        match self.resolve(&key) {
            None => Err(EvalError::UnboundName),
            Some(i) => {
                if self.slots[i].moved {
                    Err(EvalError::UseAfterMove)
                } else if self.slots[i].state == BorrowState::Exclusive || self.slots[i].state
                    == BorrowState::Shared(u64::MAX) {
                    Err(EvalError::BorrowConflict)
                } else {
                    let ns = match self.slots[i].state {
                        BorrowState::Shared(n) => BorrowState::Shared(n + 1),
                        _ => BorrowState::Shared(1),
                    };
                    self.slots[i].state = ns;
                    let r = Ref { loan: self.loans.len(), token: self.next_token };
                    self.loans.push(Loan { slot: i, token: self.next_token, exclusive: false, active: true });
                    assert(self.loans@.len() == self.loans.len());
                    self.next_token = if self.next_token == u64::MAX {
                        0
                    } else {
                        self.next_token + 1
                    };
                    assert(self@ =~= old(self)@.borrow(name@).0);
                    proof {
                        lemma_take_loan_wf(old(self)@, i as int, ns, false);
                    }
                    Ok(r)
                }
            },
        }
    }

    /// Takes the exclusive borrow of the slot bound to `name`.
    pub fn borrow_mut(&mut self, name: &str) -> (r: Result<MutRef, EvalError>)
        requires
            old(self)@.wf(),
        ensures
            (final(self)@, r) == old(self)@.borrow_mut(name@),
            final(self)@.wf(),
    {
        let key = name.to_owned();
        match self.resolve(&key) {
            None => Err(EvalError::UnboundName),
            Some(i) => {
                if self.slots[i].moved {
                    Err(EvalError::UseAfterMove)
                } else if self.slots[i].state != BorrowState::Free {
                    Err(EvalError::BorrowConflict)
                } else {
                    self.slots[i].state = BorrowState::Exclusive;
                    let r = MutRef { loan: self.loans.len(), token: self.next_token };
                    self.loans.push(Loan { slot: i, token: self.next_token, exclusive: true, active: true });
                    assert(self.loans@.len() == self.loans.len());
                    self.next_token = if self.next_token == u64::MAX {
                        0
                    } else {
                        self.next_token + 1
                    };
                    assert(self@ =~= old(self)@.borrow_mut(name@).0);
                    proof {
                        lemma_take_loan_wf(old(self)@, i as int, BorrowState::Exclusive, true);
                    }
                    Ok(r)
                }
            },
        }
    }

    /// Replaces the value bound to `name`; a moved slot holds a value again.
    pub fn assign(&mut self, name: &str, value: Value) -> (r: Result<(), EvalError>)
        requires
            old(self)@.wf(),
        ensures
            (final(self)@, r) == old(self)@.assign(name@, value@),
            final(self)@.wf(),
    {
        let key = name.to_owned();
        match self.resolve(&key) {
            None => Err(EvalError::UnboundName),
            Some(i) => {
                if !self.slots[i].mutable {
                    Err(EvalError::ImmutableBinding)
                } else if self.slots[i].state != BorrowState::Free {
                    Err(EvalError::BorrowConflict)
                } else {
                    let ghost vm = value@;
                    self.slots[i].value = value;
                    self.slots[i].moved = false;
                    assert(self@ =~= old(self)@.assign(name@, vm).0);
                    Ok(())
                }
            },
        }
    }

    /// Opens a new innermost scope.
    pub fn enter_scope(&mut self)
        requires
            old(self)@.wf(),
        ensures
            final(self)@ == old(self)@.enter_scope(),
            final(self)@.wf(),
    {
        let f = Frame { slot_start: self.slots.len(), loan_start: self.loans.len() };
        self.frames.push(f);
        assert(self@ =~= old(self)@.enter_scope());
    }

    /// The number of open scopes, the root one included.
    pub fn depth(&self) -> (r: usize)
        ensures
            r == self@.frames.len(),
    {
        self.frames.len()
    }
    /// Closes the innermost scope: releases the borrows taken in it, the last
    /// first, then drops its slots in reverse binding order. Returns the names
    /// of the dropped slots in the order in which they were dropped.
    pub fn exit_scope(&mut self) -> (r: Vec<String>)
        requires
            old(self)@.wf(),
            old(self)@.frames.len() >= 2,
        ensures
            final(self)@ == old(self)@.exit_scope().0,
            final(self)@.wf(),
            r@.len() == old(self)@.exit_scope().1.len(),
            forall|k: int| 0 <= k < r@.len() ==> #[trigger] r@[k]@ == old(self)@.exit_scope().1[k],
    {
        let ghost m0 = self@;
        let f = match self.frames.pop() {
            Some(f) => f,
            None => Frame { slot_start: 0, loan_start: 0 },
        };
        assert(f == m0.frames.last());
        assert(m0.frames[m0.frames.len() - 1].loan_start <= m0.loans.len());
        assert(m0.frames[m0.frames.len() - 1].slot_start <= m0.slots.len());
        let mut i: usize = self.loans.len();
        assert(m0.loans.subrange(i as int, i as int) =~= Seq::<Loan>::empty());
        while i > f.loan_start
            invariant
                f == m0.frames.last(),
                m0.wf(),
                m0.frames.len() >= 2,
                f.loan_start <= i <= self.loans@.len(),
                self.loans@ == m0.loans,
                self.frames@ == m0.frames.drop_last(),
                self.next_token == m0.next_token,
                self@.slots == release_all(m0.slots, m0.loans.subrange(i as int, m0.loans.len() as int)),
                self@.slots.len() == m0.slots.len(),
            decreases i,
        {
            i = i - 1;
            let l = self.loans[i];
            let ghost prev = self@.slots;
            if l.active && l.slot < self.slots.len() {
                let st = self.slots[l.slot].state;
                self.slots[l.slot].state = release_exec(st, l.exclusive);
            }
            assert(self@.slots =~= release_one(prev, l));
            assert(m0.loans.subrange(i as int, m0.loans.len() as int).drop_first() =~= m0.loans.subrange(
                i + 1,
                m0.loans.len() as int,
            ));
        }
        let ghost rel = self@.slots;
        assert(rel == m0.released_slots());
        proof {
            lemma_release_all(m0.slots, m0.loans.subrange(f.loan_start as int, m0.loans.len() as int));
        }
        self.loans.truncate(f.loan_start);
        let mut names: Vec<String> = Vec::new();
        assert(rel.subrange(0, rel.len() as int) =~= rel);
        while self.slots.len() > f.slot_start
            invariant
                f == m0.frames.last(),
                m0.wf(),
                f.slot_start <= self.slots@.len() <= rel.len(),
                rel.len() == m0.slots.len(),
                self@.slots == rel.subrange(0, self.slots@.len() as int),
                names@.len() == rel.len() - self.slots@.len(),
                forall|k: int| 0 <= k < names@.len() ==> #[trigger] names@[k]@ == rel[rel.len() - 1 - k].name,
                self.loans@ == m0.loans.subrange(0, f.loan_start as int),
                self.frames@ == m0.frames.drop_last(),
                self.next_token == m0.next_token,
            decreases self.slots@.len(),
        {
            let ghost before = self.slots@;
            let ghost before_model = self@.slots;
            assert(before_model[before.len() - 1] == before[before.len() - 1]@);
            match self.slots.pop() {
                Some(s) => {
                    assert(s@ == rel[self.slots@.len() as int]);
                    names.push(s.name);
                },
                None => {},
            }
            assert(self@.slots =~= rel.subrange(0, self.slots@.len() as int));
        }
        assert(self@ =~= m0.exit_scope().0);
        proof {
            lemma_exit_wf(m0);
        }
        names
    }

    fn live_slot(&self, loan: usize, token: u64, exclusive: bool) -> (r: Option<usize>)
        ensures
            r is Some == self@.loan_live(loan, token, exclusive),
            r matches Some(i) ==> i == self@.loan_slot(loan),
    {
        if loan < self.loans.len() {
            let l = self.loans[loan];
            if l.token == token && l.active && l.exclusive == exclusive && l.slot < self.slots.len() {
                return Some(l.slot);
            }
        }
        None
    }

    fn end_loan(&mut self, loan: usize, token: u64, exclusive: bool) -> (r: Result<(), EvalError>)
        requires
            old(self)@.wf(),
        ensures
            (final(self)@, r) == old(self)@.end_loan(loan, token, exclusive),
            final(self)@.wf(),
    {
        match self.live_slot(loan, token, exclusive) {
            None => Err(EvalError::DanglingReference),
            Some(i) => {
                let st = self.slots[i].state;
                self.slots[i].state = release_exec(st, exclusive);
                self.loans.set(loan, Loan { slot: i, token, exclusive, active: false });
                assert(self@ =~= old(self)@.end_loan(loan, token, exclusive).0);
                proof {
                    lemma_end_loan_wf(old(self)@, loan, token, exclusive);
                }
                Ok(())
            },
        }
    }

    /// A copy of the value that the shared borrow `r` sees.
    pub fn read_ref(&self, r: &Ref) -> (res: Result<Value, EvalError>)
        ensures
            value_result(res) == self@.read_ref(*r),
    {
        match self.live_slot(r.loan, r.token, false) {
            None => Err(EvalError::DanglingReference),
            Some(i) => Ok(self.slots[i].value.duplicate()),
        }
    }

    /// Releases the shared borrow `r`.
    pub fn end_borrow(&mut self, r: Ref) -> (res: Result<(), EvalError>)
        requires
            old(self)@.wf(),
        ensures
            (final(self)@, res) == old(self)@.end_loan(r.loan, r.token, false),
            final(self)@.wf(),
    {
        self.end_loan(r.loan, r.token, false)
    }

    /// A copy of the value that the exclusive borrow `r` sees.
    pub fn read_mut(&self, r: &MutRef) -> (res: Result<Value, EvalError>)
        ensures
            value_result(res) == self@.read_mut(*r),
    {
        match self.live_slot(r.loan, r.token, true) {
            None => Err(EvalError::DanglingReference),
            Some(i) => Ok(self.slots[i].value.duplicate()),
        }
    }

    /// Writes `value` through the exclusive borrow `r`.
    pub fn write_mut(&mut self, r: &MutRef, value: Value) -> (res: Result<(), EvalError>)
        requires
            old(self)@.wf(),
        ensures
            (final(self)@, res) == old(self)@.write_mut(*r, value@),
            final(self)@.wf(),
    {
        match self.live_slot(r.loan, r.token, true) {
            None => Err(EvalError::DanglingReference),
            Some(i) => {
                let ghost vm = value@;
                self.slots[i].value = value;
                self.slots[i].moved = false;
                assert(self@ =~= old(self)@.write_mut(*r, vm).0);
                Ok(())
            },
        }
    }

    /// Releases the exclusive borrow `r`.
    pub fn end_borrow_mut(&mut self, r: MutRef) -> (res: Result<(), EvalError>)
        requires
            old(self)@.wf(),
        ensures
            (final(self)@, res) == old(self)@.end_loan(r.loan, r.token, true),
            final(self)@.wf(),
    {
        self.end_loan(r.loan, r.token, true)
    }

    /// The borrow state of the slot bound to `name`.
    pub fn borrow_state(&self, name: &str) -> (r: Option<BorrowState>)
        ensures
            r == (match self@.lookup(name@) {
                None => None,
                Some(i) => Some(self@.slots[i].state),
            }),
    {
        let key = name.to_owned();
        match self.resolve(&key) {
            None => None,
            Some(i) => Some(self.slots[i].state),
        }
    }

    /// Whether the slot bound to `name` has been moved out of.
    pub fn is_moved(&self, name: &str) -> (r: Option<bool>)
        ensures
            r == (match self@.lookup(name@) {
                None => None,
                Some(i) => Some(self@.slots[i].moved),
            }),
    {
        let key = name.to_owned();
        match self.resolve(&key) {
            None => None,
            Some(i) => Some(self.slots[i].moved),
        }
    }
}

} // verus!
