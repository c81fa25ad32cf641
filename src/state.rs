//! The staged effects of an execution over the backend. Effects are kept in
//! order in one list; each entered sub-state marks where its effects begin.
//! Committing a sub-state forgets its mark, so its effects become its
//! parent's; reverting or discarding it drops them.

use vstd::prelude::*;
use crate::backend::{Basic, SolanaBackend, zero_word};
use crate::bytes::bytes_eq;
use crate::exit::ExitError;
use crate::instruction::{Instruction, Log};
use crate::layout::{Address, Word};

verus! {

/// One staged effect.
#[derive(Debug, Clone)]
pub enum Effect {
    Storage { address: Address, key: Word, value: Word },
    Balance { address: Address, value: u64 },
    Nonce { address: Address, value: u64 },
    Code { address: Address, code: Vec<u8> },
    Log(Log),
    Delete { address: Address },
    /// A host instruction the call hook asked for, run if the transaction
    /// succeeds.
    Invoke(Instruction),
}

/// The balance the latest effect in `e` gives `a`, if any.
pub open spec fn staged_balance(e: Seq<Effect>, a: Seq<u8>) -> Option<u64>
    decreases e.len(),
{
    if e.len() == 0 {
        None
    } else {
        match e.last() {
            Effect::Balance { address, value } => if address@ == a {
                Some(value)
            } else {
                staged_balance(e.drop_last(), a)
            },
            _ => staged_balance(e.drop_last(), a),
        }
    }
}

/// The nonce the latest effect in `e` gives `a`, if any.
pub open spec fn staged_nonce(e: Seq<Effect>, a: Seq<u8>) -> Option<u64>
    decreases e.len(),
{
    if e.len() == 0 {
        None
    } else {
        match e.last() {
            Effect::Nonce { address, value } => if address@ == a {
                Some(value)
            } else {
                staged_nonce(e.drop_last(), a)
            },
            _ => staged_nonce(e.drop_last(), a),
        }
    }
}

/// The code the latest effect in `e` gives `a`, if any.
pub open spec fn staged_code(e: Seq<Effect>, a: Seq<u8>) -> Option<Seq<u8>>
    decreases e.len(),
{
    if e.len() == 0 {
        None
    } else {
        match e.last() {
            Effect::Code { address, code } => if address@ == a {
                Some(code@)
            } else {
                staged_code(e.drop_last(), a)
            },
            _ => staged_code(e.drop_last(), a),
        }
    }
}

/// The value the latest effect in `e` stores in slot `k` of `a`, if any.
pub open spec fn staged_storage(e: Seq<Effect>, a: Seq<u8>, k: Seq<u8>) -> Option<Seq<u8>>
    decreases e.len(),
{
    if e.len() == 0 {
        None
    } else {
        match e.last() {
            Effect::Storage { address, key, value } => if address@ == a && key@ == k {
                Some(value@)
            } else {
                staged_storage(e.drop_last(), a, k)
            },
            _ => staged_storage(e.drop_last(), a, k),
        }
    }
}

pub open spec fn is_delete_of(x: Effect, a: Seq<u8>) -> bool {
    match x {
        Effect::Delete { address } => address@ == a,
        _ => false,
    }
}

/// How the call hook stages its answer: `reason` is what `hook_result`
/// gives, and the instruction, if any, is pushed as an `Invoke` effect.
pub open spec fn staged_hook(b: crate::backend::SolanaBackend, e0: Seq<Effect>, e1: Seq<Effect>, input: Seq<u8>, reason: crate::exit::ExitReason) -> bool {
    exists|o: Option<Instruction>| #[trigger] crate::backend::hook_result(b, input, (reason, o)) && (match o {
        None => e1 == e0,
        Some(ix) => e1 == e0.push(Effect::Invoke(ix)),
    })
}

/// The host instructions staged in `e`, in order.
pub open spec fn invokes_of(e: Seq<Effect>) -> Seq<Instruction>
    decreases e.len(),
{
    if e.len() == 0 {
        Seq::empty()
    } else {
        match e[0] {
            Effect::Invoke(ix) => seq![ix] + invokes_of(e.skip(1)),
            _ => invokes_of(e.skip(1)),
        }
    }
}

/// Takes the staged host instructions out of `effects`, in order.
pub fn take_invocations(effects: Vec<Effect>) -> (r: Vec<Instruction>)
    ensures
        r@ == invokes_of(effects@),
{
    let ghost all = effects@;
    let mut rest = effects;
    let mut out: Vec<Instruction> = Vec::new();
    while rest.len() > 0
        invariant
            out@ + invokes_of(rest@) == invokes_of(all),
        decreases rest@.len(),
    {
        let ghost before = rest@;
        let e = rest.remove(0);
        proof {
            assert(rest@ =~= before.skip(1));
        }
        match e {
            Effect::Invoke(ix) => {
                proof {
                    assert(out@.push(ix) + invokes_of(rest@) =~= out@ + invokes_of(before));
                }
                out.push(ix);
            },
            _ => {},
        }
    }
    proof {
        assert(out@ + invokes_of(rest@) =~= out@);
    }
    out
}

/// Some effect in `e` deletes `a`.
pub open spec fn staged_delete(e: Seq<Effect>, a: Seq<u8>) -> bool {
    exists|i: int| 0 <= i < e.len() && is_delete_of(#[trigger] e[i], a)
}

/// The staged effects over the backend, with one mark per entered sub-state.
pub struct ExecutorState {
    backend: SolanaBackend,
    effects: Vec<Effect>,
    marks: Vec<usize>,
}

impl ExecutorState {
    /// The backend is well formed and the marks are ordered positions in
    /// the effects.
    pub closed spec fn wf(&self) -> bool {
        &&& self.backend.wf()
        &&& forall|i: int| 0 <= i < self.marks@.len() ==> #[trigger] self.marks@[i] <= self.effects@.len()
        &&& forall|i: int, j: int| 0 <= i < j < self.marks@.len() ==> #[trigger] self.marks@[i] <= #[trigger] self.marks@[j]
    }

    pub closed spec fn spec_effects(&self) -> Seq<Effect> {
        self.effects@
    }

    pub closed spec fn spec_marks(&self) -> Seq<usize> {
        self.marks@
    }

    pub closed spec fn spec_backend(&self) -> SolanaBackend {
        self.backend
    }

    /// The number of entered sub-states.
    pub open spec fn spec_depth(&self) -> nat {
        self.spec_marks().len()
    }

    pub fn new(backend: SolanaBackend) -> (r: ExecutorState)
        requires
            backend.wf(),
        ensures
            r.wf(),
            r.spec_backend() == backend,
            r.spec_effects().len() == 0,
            r.spec_depth() == 0,
    {
        ExecutorState { backend, effects: Vec::new(), marks: Vec::new() }
    }

    pub fn depth(&self) -> (r: usize)
        ensures
            r == self.spec_depth(),
    {
        self.marks.len()
    }

    pub fn backend(&self) -> (r: &SolanaBackend)
        requires
            self.wf(),
        ensures
            *r == self.spec_backend(),
            r.wf(),
    {
        &self.backend
    }

    pub fn effects(&self) -> (r: &Vec<Effect>)
        ensures
            r@ == self.spec_effects(),
    {
        &self.effects
    }

    /// Takes the backend and the effects back, for the commit.
    pub fn into_parts(self) -> (r: (SolanaBackend, Vec<Effect>))
        requires
            self.wf(),
        ensures
            r.0 == self.spec_backend(),
            r.0.wf(),
            r.1@ == self.spec_effects(),
    {
        (self.backend, self.effects)
    }

    /// Enters a sub-state.
    pub(crate) fn enter(&mut self)
        requires
            old(self).wf(),
        ensures
            final(self).wf(),
            final(self).spec_effects() == old(self).spec_effects(),
            final(self).spec_marks() == old(self).spec_marks().push(old(self).spec_effects().len() as usize),
            final(self).spec_backend() == old(self).spec_backend(),
    {
        let n = self.effects.len();
        self.marks.push(n);
    }

    /// Leaves the top sub-state keeping its effects.
    pub(crate) fn exit_commit(&mut self)
        requires
            old(self).wf(),
            old(self).spec_depth() > 0,
        ensures
            final(self).wf(),
            final(self).spec_effects() == old(self).spec_effects(),
            final(self).spec_marks() == old(self).spec_marks().drop_last(),
            final(self).spec_backend() == old(self).spec_backend(),
    {
        self.marks.pop();
    }

    /// Leaves the top sub-state dropping its effects.
    pub(crate) fn exit_revert(&mut self)
        requires
            old(self).wf(),
            old(self).spec_depth() > 0,
        ensures
            final(self).wf(),
            final(self).spec_effects() == old(self).spec_effects().subrange(0, old(self).spec_marks().last() as int),
            final(self).spec_marks() == old(self).spec_marks().drop_last(),
            final(self).spec_backend() == old(self).spec_backend(),
    {
        let m = self.marks.pop().unwrap();
        self.effects.truncate(m);
        proof {
            assert forall|i: int| 0 <= i < self.marks@.len() implies #[trigger] self.marks@[i] <= self.effects@.len() by {
                assert(old(self).marks@[i] <= old(self).marks@[old(self).marks@.len() - 1]);
            }
        }
    }

    /// Leaves the top sub-state after a fault, dropping its effects.
    pub(crate) fn exit_discard(&mut self)
        requires
            old(self).wf(),
            old(self).spec_depth() > 0,
        ensures
            final(self).wf(),
            final(self).spec_effects() == old(self).spec_effects().subrange(0, old(self).spec_marks().last() as int),
            final(self).spec_marks() == old(self).spec_marks().drop_last(),
            final(self).spec_backend() == old(self).spec_backend(),
    {
        self.exit_revert();
    }

    fn push_effect(&mut self, e: Effect)
        requires
            old(self).wf(),
        ensures
            final(self).wf(),
            final(self).spec_effects() == old(self).spec_effects().push(e),
            final(self).spec_marks() == old(self).spec_marks(),
            final(self).spec_backend() == old(self).spec_backend(),
    {
        self.effects.push(e);
    }
}

} // verus!

verus! {

/// `r` is what the backend reads as the balance and nonce of `a`.
pub open spec fn backend_basic(b: SolanaBackend, a: Seq<u8>, r: Basic) -> bool {
    &&& !b.known(a) ==> r == (Basic { balance: 0, nonce: 0 })
    &&& b.known(a) ==> (exists|i: int| b.resolves(a, i) && 0 <= i < b.accounts@.len()
        && r.balance == b.accounts@[i].spec_lamports() && r.nonce == b.accounts@[i].spec_nonce())
}

/// `r` is what the backend reads as the code of `a`.
pub open spec fn backend_code(b: SolanaBackend, a: Seq<u8>, r: Seq<u8>) -> bool {
    &&& !b.known(a) ==> r == Seq::<u8>::empty()
    &&& b.known(a) ==> (exists|i: int| b.resolves(a, i) && 0 <= i < b.accounts@.len() && r == b.accounts@[i].spec_code())
}

/// `r` is what the backend reads in slot `k` of `a`.
pub open spec fn backend_storage(b: SolanaBackend, a: Seq<u8>, k: Seq<u8>, r: Seq<u8>) -> bool {
    &&& !b.known(a) ==> r == zero_word()
    &&& b.known(a) ==> (exists|i: int| b.resolves(a, i) && 0 <= i < b.accounts@.len()
        && r == b.accounts@[i].spec_storage_value(k))
}

impl ExecutorState {
    /// The balance of `a`: the latest staged one, else the backend's.
    pub open spec fn spec_balance(&self, a: Seq<u8>) -> u64 {
        match staged_balance(self.spec_effects(), a) {
            Some(v) => v,
            None => self.spec_backend().spec_basic(a).balance,
        }
    }

    /// The nonce of `a`: the latest staged one, else the backend's.
    pub open spec fn spec_nonce(&self, a: Seq<u8>) -> u64 {
        match staged_nonce(self.spec_effects(), a) {
            Some(v) => v,
            None => self.spec_backend().spec_basic(a).nonce,
        }
    }

    /// The code of `a`: the latest staged one, else the backend's.
    pub open spec fn spec_code(&self, a: Seq<u8>) -> Seq<u8> {
        match staged_code(self.spec_effects(), a) {
            Some(c) => c,
            None => self.spec_backend().spec_code_of(a),
        }
    }

    /// The value in slot `k` of `a`: the latest staged one, else the backend's.
    pub open spec fn spec_storage(&self, a: Seq<u8>, k: Seq<u8>) -> Seq<u8> {
        match staged_storage(self.spec_effects(), a, k) {
            Some(v) => v,
            None => self.spec_backend().spec_storage_of(a, k),
        }
    }

    /// Balance and nonce, staged effects first.
    pub fn basic(&self, address: &Address) -> (r: Basic)
        requires
            self.wf(),
        ensures
            r.balance == self.spec_balance(address@),
            r.nonce == self.spec_nonce(address@),
            exists|base: Basic| backend_basic(self.spec_backend(), address@, base) && r.balance == (match staged_balance(self.spec_effects(), address@) {
                Some(v) => v,
                None => base.balance,
            }) && r.nonce == (match staged_nonce(self.spec_effects(), address@) {
                Some(v) => v,
                None => base.nonce,
            }),
    {
        let base = self.backend.basic(address);
        let mut balance: Option<u64> = None;
        let mut nonce: Option<u64> = None;
        let mut i: usize = self.effects.len();
        let ghost e = self.effects@;
        proof {
            assert(e.subrange(0, e.len() as int) =~= e);
        }
        while i > 0
            invariant
                i <= e.len(),
                e == self.effects@,
                balance is Some ==> balance == staged_balance(e, address@),
                balance is None ==> staged_balance(e, address@) == staged_balance(e.subrange(0, i as int), address@),
                nonce is Some ==> nonce == staged_nonce(e, address@),
                nonce is None ==> staged_nonce(e, address@) == staged_nonce(e.subrange(0, i as int), address@),
            decreases i,
        {
            let ghost pre = e.subrange(0, i as int);
            proof {
                assert(pre.drop_last() =~= e.subrange(0, i - 1));
                assert(pre.last() == e[i - 1]);
            }
            match &self.effects[i - 1] {
                Effect::Balance { address: a, value } => {
                    if balance.is_none() && bytes_eq(a, address) {
                        balance = Some(*value);
                    }
                },
                Effect::Nonce { address: a, value } => {
                    if nonce.is_none() && bytes_eq(a, address) {
                        nonce = Some(*value);
                    }
                },
                _ => {},
            }
            i = i - 1;
        }
        proof {
            assert(e.subrange(0, 0) =~= Seq::<Effect>::empty());
        }
        let r = Basic {
            balance: match balance {
                Some(v) => v,
                None => base.balance,
            },
            nonce: match nonce {
                Some(v) => v,
                None => base.nonce,
            },
        };
        proof {
            assert(backend_basic(self.spec_backend(), address@, base));
            assert(staged_balance(e.subrange(0, 0), address@) == None::<u64>);
            assert(staged_nonce(e.subrange(0, 0), address@) == None::<u64>);
            assert(r.balance == (match staged_balance(self.spec_effects(), address@) {
                Some(v) => v,
                None => base.balance,
            }));
            assert(r.nonce == (match staged_nonce(self.spec_effects(), address@) {
                Some(v) => v,
                None => base.nonce,
            }));
        }
        r
    }

    /// Code, staged effects first.
    pub fn code(&self, address: &Address) -> (r: Vec<u8>)
        requires
            self.wf(),
        ensures
            r@ == self.spec_code(address@),
            staged_code(self.spec_effects(), address@) matches Some(c) ==> r@ == c,
            staged_code(self.spec_effects(), address@) is None ==> backend_code(self.spec_backend(), address@, r@),
    {
        let mut i: usize = self.effects.len();
        let ghost e = self.effects@;
        proof {
            assert(e.subrange(0, e.len() as int) =~= e);
        }
        while i > 0
            invariant
                i <= e.len(),
                e == self.effects@,
                staged_code(e, address@) == staged_code(e.subrange(0, i as int), address@),
            decreases i,
        {
            let ghost pre = e.subrange(0, i as int);
            proof {
                assert(pre.drop_last() =~= e.subrange(0, i - 1));
                assert(pre.last() == e[i - 1]);
            }
            match &self.effects[i - 1] {
                Effect::Code { address: a, code } => {
                    if bytes_eq(a, address) {
                        let mut out: Vec<u8> = Vec::new();
                        crate::bytes::push_all(&mut out, code.as_slice());
                        return out;
                    }
                },
                _ => {},
            }
            i = i - 1;
        }
        proof {
            assert(e.subrange(0, 0) =~= Seq::<Effect>::empty());
        }
        self.backend.code(address)
    }

    /// The value in a storage slot, staged effects first.
    pub fn storage(&self, address: &Address, index: &Word) -> (r: Word)
        requires
            self.wf(),
        ensures
            r@ == self.spec_storage(address@, index@),
            staged_storage(self.spec_effects(), address@, index@) matches Some(v) ==> r@ == v,
            staged_storage(self.spec_effects(), address@, index@) is None ==> backend_storage(self.spec_backend(), address@, index@, r@),
    {
        let mut i: usize = self.effects.len();
        let ghost e = self.effects@;
        proof {
            assert(e.subrange(0, e.len() as int) =~= e);
        }
        while i > 0
            invariant
                i <= e.len(),
                e == self.effects@,
                staged_storage(e, address@, index@) == staged_storage(e.subrange(0, i as int), address@, index@),
            decreases i,
        {
            let ghost pre = e.subrange(0, i as int);
            proof {
                assert(pre.drop_last() =~= e.subrange(0, i - 1));
                assert(pre.last() == e[i - 1]);
            }
            match &self.effects[i - 1] {
                Effect::Storage { address: a, key, value } => {
                    if bytes_eq(a, address) && bytes_eq(key, index) {
                        return *value;
                    }
                },
                _ => {},
            }
            i = i - 1;
        }
        proof {
            assert(e.subrange(0, 0) =~= Seq::<Effect>::empty());
        }
        self.backend.storage(address, index)
    }

    /// Whether a staged effect deletes `address`.
    pub fn deleted(&self, address: &Address) -> (r: bool)
        ensures
            r == staged_delete(self.spec_effects(), address@),
    {
        let mut i: usize = 0;
        while i < self.effects.len()
            invariant
                i <= self.effects@.len(),
                forall|j: int| 0 <= j < i ==> !is_delete_of(#[trigger] self.effects@[j], address@),
            decreases self.effects@.len() - i,
        {
            match &self.effects[i] {
                Effect::Delete { address: a } => {
                    if bytes_eq(a, address) {
                        assert(is_delete_of(self.effects@[i as int], address@));
                        return true;
                    }
                },
                _ => {},
            }
            i = i + 1;
        }
        false
    }
}

} // verus!

verus! {

impl ExecutorState {
    pub fn set_storage(&mut self, address: &Address, index: &Word, value: &Word)
        requires
            old(self).wf(),
        ensures
            final(self).wf(),
            final(self).spec_marks() == old(self).spec_marks(),
            final(self).spec_backend() == old(self).spec_backend(),
            final(self).spec_effects() == old(self).spec_effects().push(
                Effect::Storage { address: *address, key: *index, value: *value },
            ),
    {
        self.push_effect(Effect::Storage { address: *address, key: *index, value: *value });
    }

    pub fn log(&mut self, address: &Address, topics: Vec<Word>, data: Vec<u8>)
        requires
            old(self).wf(),
        ensures
            final(self).wf(),
            final(self).spec_marks() == old(self).spec_marks(),
            final(self).spec_backend() == old(self).spec_backend(),
            final(self).spec_effects() == old(self).spec_effects().push(
                Effect::Log(Log { address: *address, topics, data }),
            ),
    {
        self.push_effect(Effect::Log(Log { address: *address, topics, data }));
    }

    pub fn set_code(&mut self, address: &Address, code: Vec<u8>)
        requires
            old(self).wf(),
        ensures
            final(self).wf(),
            final(self).spec_marks() == old(self).spec_marks(),
            final(self).spec_backend() == old(self).spec_backend(),
            final(self).spec_effects() == old(self).spec_effects().push(Effect::Code { address: *address, code }),
    {
        self.push_effect(Effect::Code { address: *address, code });
    }

    pub fn set_deleted(&mut self, address: &Address)
        requires
            old(self).wf(),
        ensures
            final(self).wf(),
            final(self).spec_marks() == old(self).spec_marks(),
            final(self).spec_backend() == old(self).spec_backend(),
            final(self).spec_effects() == old(self).spec_effects().push(Effect::Delete { address: *address }),
    {
        self.push_effect(Effect::Delete { address: *address });
    }

    pub fn reset_balance(&mut self, address: &Address)
        requires
            old(self).wf(),
        ensures
            final(self).wf(),
            final(self).spec_marks() == old(self).spec_marks(),
            final(self).spec_backend() == old(self).spec_backend(),
            final(self).spec_effects() == old(self).spec_effects().push(Effect::Balance { address: *address, value: 0 }),
    {
        self.push_effect(Effect::Balance { address: *address, value: 0 });
    }

    /// Adds one to the nonce of `address` (it stays at the largest value).
    pub fn inc_nonce(&mut self, address: &Address)
        requires
            old(self).wf(),
        ensures
            final(self).wf(),
            final(self).spec_marks() == old(self).spec_marks(),
            final(self).spec_backend() == old(self).spec_backend(),
            final(self).spec_effects().len() == old(self).spec_effects().len() + 1,
            final(self).spec_effects().drop_last() == old(self).spec_effects(),
            final(self).spec_effects().last() matches Effect::Nonce { address: a, .. } && a == *address,
            final(self).spec_effects() == old(self).spec_effects().push(Effect::Nonce {
                address: *address,
                value: if old(self).spec_nonce(address@) < u64::MAX {
                    (old(self).spec_nonce(address@) + 1) as u64
                } else {
                    old(self).spec_nonce(address@)
                },
            }),
    {
        let n = self.basic(address).nonce;
        let next = if n < u64::MAX { n + 1 } else { n };
        self.push_effect(Effect::Nonce { address: *address, value: next });
        proof {
            assert(self.spec_effects().drop_last() =~= old(self).spec_effects());
        }
    }

    /// Moves `value` from `source` to `target`; `OutOfFund` when the source
    /// holds less, or the target would overflow.
    pub fn transfer(&mut self, source: &Address, target: &Address, value: u64) -> (r: Result<(), ExitError>)
        requires
            old(self).wf(),
        ensures
            final(self).wf(),
            final(self).spec_marks() == old(self).spec_marks(),
            final(self).spec_backend() == old(self).spec_backend(),
            r is Err ==> r == Err::<(), _>(ExitError::OutOfFund) && final(self).spec_effects() == old(self).spec_effects(),
            r is Ok ==> final(self).spec_effects().subrange(0, old(self).spec_effects().len() as int) == old(self).spec_effects(),
            r is Err <==> old(self).spec_balance(source@) < value || (source@ != target@
                && old(self).spec_balance(target@) + value > u64::MAX),
            r is Ok && source@ == target@ ==> final(self).spec_effects() == old(self).spec_effects(),
            r is Ok && source@ != target@ ==> final(self).spec_effects() == old(self).spec_effects().push(
                Effect::Balance { address: *source, value: (old(self).spec_balance(source@) - value) as u64 },
            ).push(Effect::Balance { address: *target, value: (old(self).spec_balance(target@) + value) as u64 }),
    {
        let from = self.basic(source).balance;
        if from < value {
            return Err(ExitError::OutOfFund);
        }
        if bytes_eq(source, target) {
            return Ok(());
        }
        proof {
            if source@ == target@ {
                assert(*source =~= *target);
            }
        }
        let to = self.basic(target).balance;
        if to > u64::MAX - value {
            return Err(ExitError::OutOfFund);
        }
        let ghost e0 = self.spec_effects();
        self.push_effect(Effect::Balance { address: *source, value: from - value });
        self.push_effect(Effect::Balance { address: *target, value: to + value });
        proof {
            assert(self.spec_effects().subrange(0, e0.len() as int) =~= e0);
            assert(source@ != target@);
        }
        Ok(())
    }

    /// Whether some account of the backend has this address.
    pub fn account_exists(&self, address: &Address) -> (r: bool)
        requires
            self.wf(),
        ensures
            r == self.spec_backend().known(address@),
    {
        self.backend.account_exists(address)
    }

    /// The call hook of the backend.
    /// The call hook: a host instruction it asks for is staged, so that a
    /// revert or a fault drops it with the frame's other effects.
    pub fn call_inner(&mut self, code_address: &Address, input: &[u8]) -> (r: Option<(crate::exit::ExitReason, Vec<u8>)>)
        requires
            old(self).wf(),
        ensures
            final(self).wf(),
            final(self).spec_marks() == old(self).spec_marks(),
            final(self).spec_backend() == old(self).spec_backend(),
            !crate::cpi::is_hook_address(code_address@) ==> r is None && final(self).spec_effects() == old(self).spec_effects(),
            crate::cpi::is_hook_address(code_address@) ==> (r matches Some((reason, d)) && d@.len() == 0 && staged_hook(
                old(self).spec_backend(),
                old(self).spec_effects(),
                final(self).spec_effects(),
                input@,
                reason,
            )),
    {
        match self.backend.hook(code_address, input) {
            None => None,
            Some((reason, None)) => Some((reason, Vec::new())),
            Some((reason, Some(ix))) => {
                let ghost e0 = self.effects@;
                let ghost ixg = ix;
                self.push_effect(Effect::Invoke(ix));
                proof {
                    assert(self.effects@.drop_last() =~= e0);
                }
                Some((reason, Vec::new()))
            },
        }
    }
}

} // verus!

verus! {

/// The log records among `e`, in order.
pub open spec fn logs_of(e: Seq<Effect>) -> Seq<Log>
    decreases e.len(),
{
    if e.len() == 0 {
        Seq::empty()
    } else {
        match e.last() {
            Effect::Log(l) => logs_of(e.drop_last()).push(l),
            _ => logs_of(e.drop_last()),
        }
    }
}

/// Two log records with the same address, topics and data.
pub open spec fn same_log(a: Log, b: Log) -> bool {
    a.address == b.address && a.topics@ == b.topics@ && a.data@ == b.data@
}

/// The address an effect touches, if any.
pub open spec fn touched(x: Effect) -> Option<Address> {
    match x {
        Effect::Storage { address, .. } => Some(address),
        Effect::Balance { address, .. } => Some(address),
        Effect::Nonce { address, .. } => Some(address),
        Effect::Code { address, .. } => Some(address),
        Effect::Delete { address } => Some(address),
        Effect::Log(_) => None,
        Effect::Invoke(_) => None,
    }
}

fn touched_address(x: &Effect) -> (r: Option<Address>)
    ensures
        r == touched(*x),
{
    match x {
        Effect::Storage { address, .. } => Some(*address),
        Effect::Balance { address, .. } => Some(*address),
        Effect::Nonce { address, .. } => Some(*address),
        Effect::Code { address, .. } => Some(*address),
        Effect::Delete { address } => Some(*address),
        Effect::Log(_) => None,
        Effect::Invoke(_) => None,
    }
}

impl ExecutorState {
    /// The staged effects as changes to commit, one per touched address in
    /// the order first touched (a deletion for a deleted address), and the
    /// log records in order.
    pub fn deconstruct(&self) -> (r: (Vec<crate::backend::Apply>, Vec<Log>))
        requires
            self.wf(),
        ensures
            r.1@.len() == logs_of(self.spec_effects()).len(),
            forall|j: int| 0 <= j < r.1@.len() ==> same_log(#[trigger] r.1@[j], logs_of(self.spec_effects())[j]),
            forall|j: int| 0 <= j < r.0@.len() ==> (match #[trigger] r.0@[j] {
                crate::backend::Apply::Modify { address, .. } => !staged_delete(self.spec_effects(), address@),
                crate::backend::Apply::Delete { address } => staged_delete(self.spec_effects(), address@),
            }),
    {
        let mut applies: Vec<crate::backend::Apply> = Vec::new();
        let mut seen: Vec<Address> = Vec::new();
        let mut logs: Vec<Log> = Vec::new();
        let mut i: usize = 0;
        while i < self.effects.len()
            invariant
                self.wf(),
                i <= self.effects@.len(),
                logs@.len() == logs_of(self.effects@.subrange(0, i as int)).len(),
                forall|j: int| 0 <= j < logs@.len() ==> same_log(#[trigger] logs@[j], logs_of(self.effects@.subrange(0, i as int))[j]),
                forall|j: int| 0 <= j < applies@.len() ==> (match #[trigger] applies@[j] {
                    crate::backend::Apply::Modify { address, .. } => !staged_delete(self.spec_effects(), address@),
                    crate::backend::Apply::Delete { address } => staged_delete(self.spec_effects(), address@),
                }),
            decreases self.effects@.len() - i,
        {
            proof {
                let pre = self.effects@.subrange(0, i + 1);
                assert(pre.drop_last() =~= self.effects@.subrange(0, i as int));
                assert(pre.last() == self.effects@[i as int]);
            }
            let x = &self.effects[i];
            match x {
                Effect::Log(l) => {
                    logs.push(l.clone_log());
                },
                _ => {},
            }
            match touched_address(x) {
                None => {},
                Some(a) => {
                    let mut known = false;
                    let mut q: usize = 0;
                    while q < seen.len()
                        invariant
                            q <= seen@.len(),
                        decreases seen@.len() - q,
                    {
                        if bytes_eq(&seen[q], &a) {
                            known = true;
                        }
                        q = q + 1;
                    }
                    if !known {
                        seen.push(a);
                        if self.deleted(&a) {
                            applies.push(crate::backend::Apply::Delete { address: a });
                        } else {
                            let basic = self.basic(&a);
                            let mut code: Option<Vec<u8>> = None;
                            let mut storage: Vec<(Word, Word)> = Vec::new();
                            let mut k: usize = 0;
                            while k < self.effects.len()
                                invariant
                                    k <= self.effects@.len(),
                                decreases self.effects@.len() - k,
                            {
                                match &self.effects[k] {
                                    Effect::Storage { address, key, value } => {
                                        if bytes_eq(address, &a) {
                                            storage.push((*key, *value));
                                        }
                                    },
                                    Effect::Code { address, code: c } => {
                                        if bytes_eq(address, &a) {
                                            let mut copy: Vec<u8> = Vec::new();
                                            crate::bytes::push_all(&mut copy, c.as_slice());
                                            code = Some(copy);
                                        }
                                    },
                                    _ => {},
                                }
                                k = k + 1;
                            }
                            applies.push(crate::backend::Apply::Modify {
                                address: a,
                                basic,
                                code,
                                storage,
                                reset_storage: false,
                            });
                        }
                    }
                },
            }
            i = i + 1;
        }
        proof {
            assert(self.effects@.subrange(0, i as int) =~= self.effects@);
        }
        (applies, logs)
    }
}

impl Log {
    /// A copy of the record.
    pub fn clone_log(&self) -> (r: Log)
        ensures
            same_log(r, *self),
    {
        let mut topics: Vec<Word> = Vec::new();
        let mut i: usize = 0;
        while i < self.topics.len()
            invariant
                i <= self.topics@.len(),
                topics@ == self.topics@.subrange(0, i as int),
            decreases self.topics@.len() - i,
        {
            topics.push(self.topics[i]);
            proof {
                assert(topics@ =~= self.topics@.subrange(0, i + 1));
            }
            i = i + 1;
        }
        let mut data: Vec<u8> = Vec::new();
        crate::bytes::push_all(&mut data, self.data.as_slice());
        proof {
            assert(topics@ =~= self.topics@);
        }
        Log { address: self.address, topics, data }
    }
}

} // verus!

verus! {

impl ExecutorState {
    /// The staged state as bytes: the effects, then the marks.
    pub fn save(&self) -> (r: Vec<u8>)
        ensures
            r@.len() >= 16,
            r@.subrange(0, 8) == crate::bytes::le_bytes(self.spec_effects().len(), 8),
    {
        let mut out: Vec<u8> = Vec::new();
        crate::persist::put_u64(&mut out, self.effects.len() as u64);
        let ghost head = out@;
        proof {
            crate::bytes::lemma_le_bytes_len(self.effects@.len() as nat, 8);
        }
        let mut i: usize = 0;
        while i < self.effects.len()
            invariant
                i <= self.effects@.len(),
                out@.len() >= 8,
                head.len() == 8,
                out@.subrange(0, 8) == head,
                head == crate::bytes::le_bytes(self.effects@.len() as nat, 8),
            decreases self.effects@.len() - i,
        {
            let ghost before = out@;
            crate::persist::put_effect(&mut out, &self.effects[i]);
            proof {
                assert(out@.subrange(0, 8) =~= before.subrange(0, before.len() as int).subrange(0, 8));
            }
            i = i + 1;
        }
        let ghost before = out@;
        crate::persist::put_u64(&mut out, self.marks.len() as u64);
        proof {
            crate::bytes::lemma_le_bytes_len(self.marks@.len() as nat, 8);
            assert(out@.subrange(0, 8) =~= before.subrange(0, 8));
        }
        let mut j: usize = 0;
        while j < self.marks.len()
            invariant
                j <= self.marks@.len(),
                out@.len() >= 16,
                out@.subrange(0, 8) == head,
            decreases self.marks@.len() - j,
        {
            let ghost before = out@;
            crate::persist::put_u64(&mut out, self.marks[j] as u64);
            proof {
                assert(out@.subrange(0, 8) =~= before.subrange(0, 8));
            }
            j = j + 1;
        }
        out
    }

    /// Reads back saved state over `backend`; `None` when the bytes are not
    /// a saved state, or their marks are out of order.
    pub fn restore(bytes: &[u8], backend: SolanaBackend) -> (r: Option<ExecutorState>)
        requires
            backend.wf(),
        ensures
            r matches Some(s) ==> s.wf() && s.spec_backend() == backend,
    {
        let (n, mut p) = match crate::persist::get_u64(bytes, 0) {
            Some(x) => x,
            None => {
                return None;
            },
        };
        let mut effects: Vec<Effect> = Vec::new();
        let mut i: u64 = 0;
        while i < n
            invariant
                i <= n,
                p <= bytes@.len(),
            decreases n - i,
        {
            let (e, q) = match crate::persist::get_effect(bytes, p) {
                Some(x) => x,
                None => {
                    return None;
                },
            };
            effects.push(e);
            p = q;
            i = i + 1;
        }
        let (m, mut p) = match crate::persist::get_u64(bytes, p) {
            Some(x) => x,
            None => {
                return None;
            },
        };
        let mut marks: Vec<usize> = Vec::new();
        let mut j: u64 = 0;
        while j < m
            invariant
                j <= m,
                forall|k: int| 0 <= k < marks@.len() ==> #[trigger] marks@[k] <= effects@.len(),
                forall|a: int, b: int| 0 <= a < b < marks@.len() ==> #[trigger] marks@[a] <= #[trigger] marks@[b],
            decreases m - j,
        {
            let (x, q) = match crate::persist::get_u64(bytes, p) {
                Some(x) => x,
                None => {
                    return None;
                },
            };
            if x > effects.len() as u64 {
                return None;
            }
            if marks.len() > 0 && (x as usize) < marks[marks.len() - 1] {
                return None;
            }
            marks.push(x as usize);
            p = q;
            j = j + 1;
        }
        Some(ExecutorState { backend, effects, marks })
    }
}

} // verus!
