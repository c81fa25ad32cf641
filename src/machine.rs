//! The resumable machine: a stack of interpreter frames over one executor.
//! CALL and CREATE push frames instead of recursing, and every frame owns
//! exactly one entered sub-state, left exactly once when the frame goes.

use vstd::prelude::*;
use crate::executor::{CallCapture, Context, CreateCapture, Executor, Transfer};
use crate::backend::CreateScheme;
use crate::exit::{ExitError, ExitFatal, ExitReason};
use crate::layout::{Address, Word};
use crate::state::{Effect, ExecutorState};
use crate::cpi::is_hook_address;

verus! {

/// Why a frame was pushed: its end hands return data to a CALL, or installs
/// code at the address of a CREATE.
#[derive(Debug, Clone, Copy, PartialEq, Eq)]
pub enum RuntimeReason {
    Call,
    Create(Address),
}

/// What one opcode of a frame asks of the machine.
#[derive(Debug, Clone)]
pub enum StepOutcome {
    /// The opcode is done; the frame goes on.
    Continue,
    /// The frame ends.
    Exit(ExitReason),
    /// SSTORE.
    SetStorage { address: Address, index: Word, value: Word },
    /// LOG.
    Log { address: Address, topics: Vec<Word>, data: Vec<u8> },
    /// SELFDESTRUCT.
    MarkDelete { address: Address, target: Address },
    /// CALL and its kin.
    Call { code_address: Address, transfer: Option<Transfer>, input: Vec<u8>, context: Context },
    /// CREATE and CREATE2.
    Create { caller: Address, scheme: CreateScheme, value: u64, init_code: Vec<u8> },
}

/// An interpreter frame: the program counter, stack and memory of one call.
/// It reads the state through the executor and tells the machine what each
/// opcode changes.
pub trait Runtime: Sized {
    fn new(code: Vec<u8>, input: Vec<u8>, context: Context) -> Self;

    fn step(&mut self, executor: &Executor) -> StepOutcome;

    fn return_value(&self) -> Vec<u8>;

    /// Completes a CALL with the callee's end and return data.
    fn save_return_value(&mut self, reason: ExitReason, data: Vec<u8>);

    /// Completes a CREATE with its end, the new address and the return data.
    fn save_created_address(&mut self, reason: ExitReason, address: Option<Address>, data: Vec<u8>);

    /// The frame as bytes.
    fn save(&self) -> Vec<u8>;

    /// A frame read back from bytes `save` gave.
    fn restore(bytes: &[u8]) -> Option<Self>;
}

/// One frame of the machine.
pub struct Frame<R> {
    pub runtime: R,
    pub reason: Option<RuntimeReason>,
    /// The code, input and context the frame's interpreter was started
    /// with; unknown for a frame read back from saved bytes.
    pub start: Ghost<Option<(Seq<u8>, Seq<u8>, Context)>>,
    /// The last answer handed to the frame's interpreter: how a call or
    /// creation it asked for ended, the created address, the return data.
    pub handed: Ghost<Option<(ExitReason, Option<Address>, Seq<u8>)>>,
}

/// The address a frame pushed for a CREATE installs code at.
pub open spec fn create_target(r: Option<RuntimeReason>) -> Option<Address> {
    match r {
        Some(RuntimeReason::Create(x)) => Some(x),
        _ => None,
    }
}

/// Why each frame was pushed, bottom first.
pub open spec fn reasons_of<R>(frames: Seq<Frame<R>>) -> Seq<Option<RuntimeReason>> {
    Seq::new(frames.len(), |i: int| frames[i].reason)
}

/// What one step does, from machine `b` (whose top frame the interpreter
/// stepped) to machine `a`, given what the interpreter asked for. Frames
/// below the stepped one keep their interpreter state; a frame that gets an
/// answer (from the handler, or from a child that ended) records it in
/// `handed`, and a child's return data is kept in `last_return`.
#[verifier::opaque]
pub open spec fn resolved<R>(b: Machine<R>, a: Machine<R>, o: StepOutcome, r: Result<(), ExitReason>) -> bool {
    let rs = reasons_of(b.frames@);
    let k = rs.len();
    let st = b.executor.state;
    let e0 = st.spec_effects();
    let m0 = st.spec_marks();
    let ar = reasons_of(a.frames@);
    let ae = a.executor.state.spec_effects();
    let am = a.executor.state.spec_marks();
    let below = b.frames@.subrange(0, k - 1);
    let kept = a.frames@.len() == k && a.frames@.subrange(0, k - 1) == below && ar == rs && am == m0;
    let popped = a.frames@ == b.frames@.drop_last() && am == m0.drop_last();
    let dropped = ae == e0.subrange(0, m0.last() as int);
    let limit = b.executor.config.create_contract_limit;
    let too_long = limit matches Some(l) && a.last_return@.len() > l;
    let deep = k + 1 > b.executor.config.call_stack_limit;
    &&& a.executor.config == b.executor.config
    &&& a.executor.state.spec_backend() == st.spec_backend()
    &&& match o {
        StepOutcome::Continue => r is Ok && kept && ae == e0,
        StepOutcome::SetStorage { address, index, value } => r is Ok && kept && ae == e0.push(
            Effect::Storage { address, key: index, value },
        ),
        StepOutcome::Log { address, topics, data } => r is Ok && kept && ae == e0.push(
            Effect::Log(crate::instruction::Log { address, topics, data }),
        ),
        StepOutcome::MarkDelete { address, target } => {
            &&& (r is Err <==> address@ != target@ && st.spec_balance(target@) + st.spec_balance(address@) > u64::MAX)
            &&& r is Ok ==> kept && a.executor.state.spec_balance(address@) == 0 && crate::state::staged_delete(ae, address@)
                && (address@ != target@ ==> a.executor.state.spec_balance(target@) == st.spec_balance(target@) + st.spec_balance(address@))
            &&& r is Err ==> r == Err::<(), ExitReason>(ExitReason::Error(ExitError::OutOfFund)) && popped && dropped
        },
        StepOutcome::Call { code_address, input, context, .. } => {
            &&& r is Ok
            &&& (deep || is_hook_address(code_address@)) ==> kept && (a.frames@.last().handed@ matches Some((reason, None, d))
                && d.len() == 0 && (deep ==> reason == ExitReason::Error(ExitError::CallTooDeep) && ae == e0)
                && (!deep ==> crate::state::staged_hook(st.spec_backend(), e0, ae, input@, reason)))
            &&& !(deep || is_hook_address(code_address@)) ==> ae == e0 && a.frames@.len() == k + 1
                && a.frames@.subrange(0, k - 1) == below && ar == rs.push(Some(RuntimeReason::Call))
                && am == m0.push(e0.len() as usize) && a.frames@.last().handed@ is None
                && a.frames@.last().start@ == Some((st.spec_code(code_address@), input@, context))
        },
        StepOutcome::Create { caller, scheme, value, init_code } => {
            let addr = b.executor.spec_create_address(scheme);
            &&& r is Ok
            &&& deep ==> kept && ae == e0 && (a.frames@.last().handed@ matches Some((reason, None, d))
                && reason == ExitReason::Error(ExitError::CallTooDeep) && d.len() == 0)
            &&& !deep ==> ae.len() == e0.len() + 1 && ae.drop_last() == e0
                && (ae.last() matches Effect::Nonce { address: n, .. } && n == caller)
            &&& !deep ==> ((ar.len() == k + 1) <==> (a.executor.state.spec_code(addr).len() == 0
                && a.executor.state.spec_nonce(addr) == 0))
            &&& ar.len() == k + 1 ==> a.frames@.len() == k + 1 && a.frames@.subrange(0, k - 1) == below && ar.drop_last() == rs
                && am == m0.push((e0.len() + 1) as usize) && a.frames@.last().handed@ is None
                && (a.frames@.last().reason matches Some(RuntimeReason::Create(x)) && x@ == addr
                && a.frames@.last().start@ == Some((init_code@, Seq::<u8>::empty(), Context { address: x, caller, apparent_value: value })))
            &&& !deep && ar.len() != k + 1 ==> kept && (a.frames@.last().handed@ matches Some((reason, None, d))
                && reason == ExitReason::Error(ExitError::CreateCollision) && d.len() == 0)
        },
        StepOutcome::Exit(reason) => {
            &&& !(reason is Succeed) ==> r == Err::<(), ExitReason>(reason) && popped && dropped
            &&& (reason is Succeed && k == 1 && create_target(rs.last()) is None) ==> r == Err::<(), ExitReason>(reason)
                && popped && ae == e0
            &&& (reason is Succeed && k > 1 && create_target(rs.last()) is None) ==> r is Ok && am == m0.drop_last() && ae == e0
                && a.frames@.len() == k - 1 && a.frames@.subrange(0, k - 2) == b.frames@.subrange(0, k - 2)
                && a.frames@.last().reason == rs[k - 2] && a.frames@.last().handed@ == Some((reason, None::<Address>, a.last_return@))
            &&& (reason is Succeed && create_target(rs.last()) is Some && too_long) ==> r == Err::<(), ExitReason>(
                ExitReason::Error(ExitError::CreateContractLimit)) && popped && dropped
            &&& (reason is Succeed && create_target(rs.last()) is Some && !too_long) ==> am == m0.drop_last()
                && ae.len() == e0.len() + 1 && ae.drop_last() == e0 && (ae.last() matches Effect::Code { address: c, code }
                && c == create_target(rs.last()).unwrap() && code@ == a.last_return@)
                && (k == 1 ==> r == Err::<(), ExitReason>(reason) && a.frames@.len() == 0)
                && (k > 1 ==> r is Ok && a.frames@.len() == k - 1 && a.frames@.subrange(0, k - 2) == b.frames@.subrange(0, k - 2)
                    && a.frames@.last().reason == rs[k - 2]
                    && a.frames@.last().handed@ == Some((reason, create_target(rs.last()), a.last_return@)))
        },
    }
}


/// The machine.
pub struct Machine<R> {
    pub executor: Executor,
    pub frames: Vec<Frame<R>>,
    /// The return data of the last frame that ended.
    pub result: Vec<u8>,
    /// How many times an interpreter step has run.
    pub steps: Ghost<nat>,
    /// What the interpreter asked for at the last step.
    pub last_outcome: Ghost<Option<StepOutcome>>,
    /// The end the last failed step gave.
    pub last_exit: Ghost<Option<ExitReason>>,
    /// The return data of the frame that ended last.
    pub last_return: Ghost<Seq<u8>>,
}

impl<R: Runtime> Machine<R> {
    /// Every frame holds one entered sub-state, and no sub-state is held by
    /// no frame.
    pub open spec fn wf(&self) -> bool {
        &&& self.executor.wf()
        &&& self.executor.state.spec_depth() == self.frames@.len()
    }

    pub fn new(state: ExecutorState, config: crate::executor::Config) -> (r: Self)
        requires
            state.wf(),
            state.spec_depth() == 0,
        ensures
            r.wf(),
            r.frames@.len() == 0,
            r.steps@ == 0,
            r.executor.state == state,
            r.executor.config == config,
    {
        Machine {
            executor: Executor { state, config },
            frames: Vec::new(),
            result: Vec::new(),
            steps: Ghost(0),
            last_outcome: Ghost(None),
            last_exit: Ghost(None),
            last_return: Ghost(Seq::empty()),
        }
    }

    /// Starts a transaction: bumps the caller's nonce and pushes the root
    /// frame, which runs the code at `code_address` on `input`.
    pub fn call_begin(&mut self, caller: &Address, code_address: &Address, input: Vec<u8>, _gas_limit: u64)
        requires
            old(self).wf(),
        ensures
            final(self).wf(),
            final(self).frames@.len() == old(self).frames@.len() + 1,
            final(self).frames@.last().reason is None,
            final(self).steps == old(self).steps,
            reasons_of(final(self).frames@).drop_last() == reasons_of(old(self).frames@),
            final(self).executor.state.spec_effects() == old(self).executor.state.spec_effects().push(Effect::Nonce {
                address: *caller,
                value: if old(self).executor.state.spec_nonce(caller@) < u64::MAX {
                    (old(self).executor.state.spec_nonce(caller@) + 1) as u64
                } else {
                    old(self).executor.state.spec_nonce(caller@)
                },
            }),
            final(self).frames@.last().start@ == Some((
                final(self).executor.state.spec_code(code_address@),
                input@,
                Context { address: *code_address, caller: *caller, apparent_value: 0 },
            )),
            final(self).executor.state.spec_backend().accounts == old(self).executor.state.spec_backend().accounts,
    {
        self.executor.state.inc_nonce(caller);
        self.executor.state.enter();
        let code = self.executor.state.code(code_address);
        let context = Context { address: *code_address, caller: *caller, apparent_value: 0 };
        let start = Ghost(Some((code@, input@, context)));
        let runtime = R::new(code, input, context);
        self.frames.push(Frame { runtime, reason: None, start, handed: Ghost(None) });
        assert(reasons_of(self.frames@).drop_last() =~= reasons_of(old(self).frames@));
    }

    /// Runs one opcode of the top frame and carries out what it asks, as
    /// `resolved` says for what the interpreter asked (kept in
    /// `last_outcome`). An `Err` ends the transaction: success of the root
    /// frame, or the first error, revert or fault of any frame.
    pub fn step(&mut self) -> (r: Result<(), ExitReason>)
        requires
            old(self).wf(),
        ensures
            final(self).wf(),
            old(self).frames@.len() == 0 ==> r == Err::<(), ExitReason>(ExitReason::Fatal(ExitFatal::NotSupported))
                && final(self).frames@ == old(self).frames@ && final(self).executor == old(self).executor
                && final(self).steps == old(self).steps,
            old(self).frames@.len() > 0 ==> final(self).steps@ == old(self).steps@ + 1 && final(self).last_outcome@ is Some
                && resolved(*old(self), *final(self), final(self).last_outcome@.unwrap(), r),
            final(self).steps@ <= old(self).steps@ + 1,
            r is Ok ==> final(self).steps@ == old(self).steps@ + 1,
            r matches Err(e) ==> final(self).last_exit@ == Some(e),
            r is Ok ==> final(self).frames@.len() >= 1,
            r matches Err(e) && e is Succeed ==> final(self).frames@.len() == 0,
            final(self).executor.state.spec_backend().accounts == old(self).executor.state.spec_backend().accounts,
    {
        let ghost before = *self;
        let mut frame = match self.frames.pop() {
            None => {
                self.last_exit = Ghost(Some(ExitReason::Fatal(ExitFatal::NotSupported)));
                return Err(ExitReason::Fatal(ExitFatal::NotSupported));
            },
            Some(f) => f,
        };
        self.steps = Ghost(self.steps@ + 1);
        let outcome = frame.runtime.step(&self.executor);
        let ghost o = outcome;
        self.last_outcome = Ghost(Some(o));
        let r = self.apply_outcome(frame, outcome, Ghost(before));
        match r {
            Err(e) => {
                self.last_exit = Ghost(Some(e));
            },
            Ok(()) => {},
        }
        proof {
            reveal(resolved);
        }
        r
    }

    /// Carries out what the interpreter asked of the frame just taken off.
    fn apply_outcome(&mut self, frame: Frame<R>, outcome: StepOutcome, before: Ghost<Machine<R>>) -> (r: Result<(), ExitReason>)
        requires
            before@.wf(),
            before@.frames@.len() >= 1,
            old(self).executor == before@.executor,
            old(self).frames@ == before@.frames@.drop_last(),
            frame.reason == before@.frames@.last().reason,
        ensures
            final(self).wf(),
            final(self).steps == old(self).steps,
            final(self).last_exit == old(self).last_exit,
            final(self).last_outcome == old(self).last_outcome,
            resolved(before@, *final(self), outcome, r),
            r is Ok ==> final(self).frames@.len() >= 1,
            r matches Err(e) && e is Succeed ==> final(self).frames@.len() == 0,
    {
        reveal(resolved);
        let ghost rs = reasons_of(before@.frames@);
        let ghost e0 = self.executor.state.spec_effects();
        let ghost m0 = self.executor.state.spec_marks();
        proof {
            assert(reasons_of(self.frames@) =~= rs.drop_last());
            assert(rs.last() == frame.reason);
        }
        let mut frame = frame;
        let ghost o = outcome;
        match outcome {
            StepOutcome::Continue => {
                self.frames.push(frame);
                assert(self.frames@.subrange(0, rs.len() - 1) =~= before@.frames@.subrange(0, rs.len() - 1));
                assert(reasons_of(self.frames@) =~= rs);
                assert(resolved(before@, *self, o, Ok(())));
                Ok(())
            },
            StepOutcome::SetStorage { address, index, value } => {
                self.executor.state.set_storage(&address, &index, &value);
                self.frames.push(frame);
                assert(self.frames@.subrange(0, rs.len() - 1) =~= before@.frames@.subrange(0, rs.len() - 1));
                assert(reasons_of(self.frames@) =~= rs);
                assert(resolved(before@, *self, o, Ok(())));
                Ok(())
            },
            StepOutcome::Log { address, topics, data } => {
                self.executor.state.log(&address, topics, data);
                self.frames.push(frame);
                assert(self.frames@.subrange(0, rs.len() - 1) =~= before@.frames@.subrange(0, rs.len() - 1));
                assert(reasons_of(self.frames@) =~= rs);
                assert(resolved(before@, *self, o, Ok(())));
                Ok(())
            },
            StepOutcome::MarkDelete { address, target } => {
                match self.executor.mark_delete(&address, &target) {
                    Ok(()) => {
                        self.frames.push(frame);
                assert(self.frames@.subrange(0, rs.len() - 1) =~= before@.frames@.subrange(0, rs.len() - 1));
                        assert(reasons_of(self.frames@) =~= rs);
                        assert(resolved(before@, *self, o, Ok(())));
                        Ok(())
                    },
                    Err(e) => {
                        self.executor.state.exit_discard();
                        assert(reasons_of(self.frames@) =~= rs.drop_last());
                        assert(resolved(before@, *self, o, Err(ExitReason::Error(e))));
                        Err(ExitReason::Error(e))
                    },
                }
            },
            StepOutcome::Call { code_address, transfer: _, input, context } => {
                let ghost in0 = input@;
                match self.executor.call(&code_address, input, context) {
                    CallCapture::Exit(reason, data) => {
                        frame.handed = Ghost(Some((reason, None, data@)));
                        frame.runtime.save_return_value(reason, data);
                        self.frames.push(frame);
                assert(self.frames@.subrange(0, rs.len() - 1) =~= before@.frames@.subrange(0, rs.len() - 1));
                        assert(reasons_of(self.frames@) =~= rs);
                        assert(resolved(before@, *self, o, Ok(())));
                        Ok(())
                    },
                    CallCapture::Trap(ci) => {
                        let code = self.executor.state.code(&ci.code_address);
                        self.executor.state.enter();
                        self.frames.push(frame);
                assert(self.frames@.subrange(0, rs.len() - 1) =~= before@.frames@.subrange(0, rs.len() - 1));
                        let start = Ghost(Some((code@, ci.input@, ci.context)));
                        let runtime = R::new(code, ci.input, ci.context);
                        self.frames.push(Frame { runtime, reason: Some(RuntimeReason::Call), start, handed: Ghost(None) });
                        assert(self.frames@.subrange(0, rs.len() - 1) =~= before@.frames@.subrange(0, rs.len() - 1));
                        assert(reasons_of(self.frames@) =~= rs.push(Some(RuntimeReason::Call)));
                        proof {
                            let st = before@.executor.state;
                            assert(self.executor.state.spec_effects() == st.spec_effects());
                            assert(self.executor.state.spec_backend() == st.spec_backend());
                            assert(self.executor.state.spec_code(code_address@) == st.spec_code(code_address@));
                            assert(self.executor.state.spec_marks() == m0.push(e0.len() as usize));
                        }
                        assert(resolved(before@, *self, o, Ok(())));
                        Ok(())
                    },
                }
            },
            StepOutcome::Create { caller, scheme, value, init_code } => {
                match self.executor.create(&caller, &scheme, value, &init_code) {
                    CreateCapture::Exit(reason, address, data) => {
                        frame.handed = Ghost(Some((reason, address, data@)));
                        frame.runtime.save_created_address(reason, address, data);
                        self.frames.push(frame);
                assert(self.frames@.subrange(0, rs.len() - 1) =~= before@.frames@.subrange(0, rs.len() - 1));
                        assert(reasons_of(self.frames@) =~= rs);
                        proof {
                            if self.executor.state.spec_effects().len() > e0.len() {
                                assert(self.executor.state.spec_effects().drop_last() =~= e0);
                            }
                        }
                        assert(resolved(before@, *self, o, Ok(())));
                        Ok(())
                    },
                    CreateCapture::Trap(ci) => {
                        let ghost after_create = self.executor.state;
                        proof {
                            assert(after_create.spec_effects().drop_last() =~= e0);
                        }
                        self.executor.state.enter();
                        self.frames.push(frame);
                assert(self.frames@.subrange(0, rs.len() - 1) =~= before@.frames@.subrange(0, rs.len() - 1));
                        let start = Ghost(Some((ci.init_code@, Seq::<u8>::empty(), ci.context)));
                        let runtime = R::new(ci.init_code, Vec::new(), ci.context);
                        self.frames.push(Frame { runtime, reason: Some(RuntimeReason::Create(ci.address)), start, handed: Ghost(None) });
                        assert(self.frames@.subrange(0, rs.len() - 1) =~= before@.frames@.subrange(0, rs.len() - 1));
                        assert(reasons_of(self.frames@).drop_last() =~= rs);
                        proof {
                            assert(ci.context == (Context { address: ci.address, caller, apparent_value: value }));
                            assert(self.executor.state.spec_effects() == after_create.spec_effects());
                            assert(self.executor.state.spec_backend() == after_create.spec_backend());
                            assert(self.frames@.last().reason == Some(RuntimeReason::Create(ci.address)));
                        }
                        assert(resolved(before@, *self, o, Ok(())));
                        Ok(())
                    },
                }
            },
            StepOutcome::Exit(reason) => self.exit_frame(frame, reason, before),
        }
    }

    /// Ends the frame just taken off the stack with `reason`.
    fn exit_frame(&mut self, frame: Frame<R>, reason: ExitReason, before: Ghost<Machine<R>>) -> (r: Result<(), ExitReason>)
        requires
            before@.wf(),
            before@.frames@.len() >= 1,
            old(self).executor == before@.executor,
            old(self).frames@ == before@.frames@.drop_last(),
            frame.reason == before@.frames@.last().reason,
        ensures
            final(self).wf(),
            final(self).steps == old(self).steps,
            final(self).last_exit == old(self).last_exit,
            final(self).last_outcome == old(self).last_outcome,
            resolved(before@, *final(self), StepOutcome::Exit(reason), r),
            r is Ok ==> final(self).frames@.len() >= 1,
            r matches Err(e) && e is Succeed ==> final(self).frames@.len() == 0,
    {
        reveal(resolved);
        let ghost rs = reasons_of(before@.frames@);
        proof {
            assert(reasons_of(self.frames@) =~= rs.drop_last());
            assert(rs.last() == frame.reason);
        }
        match reason {
            ExitReason::Succeed(_) => {},
            ExitReason::Revert(_) => {
                self.executor.state.exit_revert();
                self.result = frame.runtime.return_value();
                self.last_return = Ghost(self.result@);
                assert(reasons_of(self.frames@) =~= rs.drop_last());
                return Err(reason);
            },
            _ => {
                self.executor.state.exit_discard();
                self.result = frame.runtime.return_value();
                self.last_return = Ghost(self.result@);
                assert(reasons_of(self.frames@) =~= rs.drop_last());
                return Err(reason);
            },
        }
        let ret = frame.runtime.return_value();
        self.last_return = Ghost(ret@);
        let mut parent = match self.frames.pop() {
            None => {
                if let Some(RuntimeReason::Create(address)) = frame.reason {
                    if self.code_too_long(&ret) {
                        self.executor.state.exit_discard();
                        assert(reasons_of(self.frames@) =~= rs.drop_last());
                        return Err(ExitReason::Error(ExitError::CreateContractLimit));
                    }
                    self.executor.state.exit_commit();
                    let mut code: Vec<u8> = Vec::new();
                    crate::bytes::push_all(&mut code, ret.as_slice());
                    self.executor.state.set_code(&address, code);
                } else {
                    self.executor.state.exit_commit();
                }
                self.result = ret;
                assert(reasons_of(self.frames@) =~= rs.drop_last());
                assert(rs.len() == 1);
                proof {
                    let st = before@.executor.state;
                    assert(self.executor.state.spec_marks() == st.spec_marks().drop_last());
                    assert(self.executor.config == before@.executor.config);
                    if create_target(rs.last()) is None {
                        assert(self.executor.state.spec_effects() == st.spec_effects());
                    } else {
                        assert(self.executor.state.spec_effects().drop_last() == st.spec_effects());
                    }
                }
                return Err(reason);
            },
            Some(p) => p,
        };
        let ghost below = self.frames@;
        match frame.reason {
            Some(RuntimeReason::Create(address)) => {
                if self.code_too_long(&ret) {
                    self.executor.state.exit_discard();
                    self.frames.push(parent);
                    assert(reasons_of(self.frames@) =~= rs.drop_last());
                    assert(self.frames@ =~= before@.frames@.drop_last());
                    return Err(ExitReason::Error(ExitError::CreateContractLimit));
                }
                self.executor.state.exit_commit();
                let mut code: Vec<u8> = Vec::new();
                crate::bytes::push_all(&mut code, ret.as_slice());
                self.executor.state.set_code(&address, code);
                parent.handed = Ghost(Some((reason, Some(address), ret@)));
                parent.runtime.save_created_address(reason, Some(address), ret);
            },
            _ => {
                self.executor.state.exit_commit();
                parent.handed = Ghost(Some((reason, None, ret@)));
                parent.runtime.save_return_value(reason, ret);
            },
        }
        self.frames.push(parent);
        assert(reasons_of(self.frames@) =~= rs.drop_last());
        assert(self.frames@.subrange(0, rs.len() - 2) =~= before@.frames@.subrange(0, rs.len() - 2));
        proof {
            let st = before@.executor.state;
            assert(rs.len() > 1);
            assert(self.executor.state.spec_marks() == st.spec_marks().drop_last());
            if create_target(rs.last()) is None {
                assert(self.executor.state.spec_effects() == st.spec_effects());
            } else {
                assert(self.executor.state.spec_effects().drop_last() == st.spec_effects());
            }
        }
        Ok(())
    }

    /// The code a creation returned is over the configured limit.
    fn code_too_long(&self, code: &Vec<u8>) -> (r: bool)
        ensures
            r == (self.executor.config.create_contract_limit matches Some(limit) && code@.len() > limit),
    {
        match self.executor.config.create_contract_limit {
            Some(limit) => code.len() > limit,
            None => false,
        }
    }

    /// Starts a creation from the host: bumps the caller's nonce and pushes
    /// a root frame that runs `init_code` at the CREATE2 address of the
    /// caller, `salt` and the code's hash; gives that address.
    pub fn create_begin(&mut self, caller: &Address, init_code: Vec<u8>, salt: &Word) -> (r: Address)
        requires
            old(self).wf(),
        ensures
            final(self).wf(),
            final(self).frames@.len() == old(self).frames@.len() + 1,
            final(self).frames@.last().reason == Some(RuntimeReason::Create(r)),
            r@ == crate::crypto::create2_address(caller@, salt@, crate::crypto::keccak256(init_code@)),
            final(self).steps == old(self).steps,
            final(self).executor.state.spec_effects().len() == old(self).executor.state.spec_effects().len() + 1,
            final(self).executor.state.spec_effects().last() matches Effect::Nonce { address: a, .. } && a == *caller,
            final(self).frames@.last().start@ == Some((init_code@, Seq::<u8>::empty(), Context { address: r, caller: *caller, apparent_value: 0 })),
            final(self).executor.state.spec_backend().accounts == old(self).executor.state.spec_backend().accounts,
    {
        let code_hash = crate::crypto::code_hash_of(init_code.as_slice());
        let address = crate::crypto::create2_address_of(caller, salt, &code_hash);
        self.executor.state.inc_nonce(caller);
        self.executor.state.enter();
        let context = Context { address, caller: *caller, apparent_value: 0 };
        let start = Ghost(Some((init_code@, Seq::<u8>::empty(), context)));
        let runtime = R::new(init_code, Vec::new(), context);
        self.frames.push(Frame { runtime, reason: Some(RuntimeReason::Create(address)), start, handed: Ghost(None) });
        address
    }

    /// Steps until the transaction ends, and gives the first `Err` a step
    /// returned (a fault, should 2^64-1 steps all succeed).
    pub fn execute(&mut self) -> (r: ExitReason)
        requires
            old(self).wf(),
        ensures
            final(self).wf(),
            r is Succeed ==> final(self).frames@.len() == 0,
            final(self).last_exit@ == Some(r) || final(self).steps@ >= old(self).steps@ + u64::MAX,
            final(self).executor.state.spec_backend().accounts == old(self).executor.state.spec_backend().accounts,
    {
        let mut budget: u64 = u64::MAX;
        while budget > 0
            invariant
                self.wf(),
                self.steps@ == old(self).steps@ + (u64::MAX - budget),
                self.executor.state.spec_backend().accounts == old(self).executor.state.spec_backend().accounts,
            decreases budget,
        {
            match self.step() {
                Ok(()) => {},
                Err(reason) => {
                    return reason;
                },
            }
            budget = budget - 1;
        }
        ExitReason::Fatal(ExitFatal::NotSupported)
    }

    /// Steps at most `n` times, stopping at the first `Err`.
    pub fn execute_n_steps(&mut self, n: u64) -> (r: Result<(), ExitReason>)
        requires
            old(self).wf(),
        ensures
            final(self).wf(),
            final(self).steps@ <= old(self).steps@ + n,
            r matches Err(e) && e is Succeed ==> final(self).frames@.len() == 0,
            r is Ok ==> final(self).frames@.len() >= 1 || (n == 0 && final(self).frames@.len() == old(self).frames@.len()),
            r is Ok ==> final(self).steps@ == old(self).steps@ + n,
            r matches Err(e) ==> final(self).last_exit@ == Some(e),
            final(self).executor.state.spec_backend().accounts == old(self).executor.state.spec_backend().accounts,
    {
        let mut i: u64 = 0;
        while i < n
            invariant
                self.wf(),
                i <= n,
                self.steps@ <= old(self).steps@ + i,
                self.steps@ == old(self).steps@ + i,
                self.executor.state.spec_backend().accounts == old(self).executor.state.spec_backend().accounts,
                i > 0 ==> self.frames@.len() >= 1,
                i == 0 ==> self.frames@.len() == old(self).frames@.len(),
            decreases n - i,
        {
            match self.step() {
                Ok(()) => {},
                Err(reason) => {
                    return Err(reason);
                },
            }
            i = i + 1;
        }
        Ok(())
    }

    /// The return data of the top frame, or of the frame that ended last.
    pub fn return_value(&self) -> (r: Vec<u8>)
        ensures
            self.frames@.len() == 0 ==> r@ == self.result@,
    {
        if self.frames.len() > 0 {
            self.frames[self.frames.len() - 1].runtime.return_value()
        } else {
            let mut out: Vec<u8> = Vec::new();
            crate::bytes::push_all(&mut out, self.result.as_slice());
            out
        }
    }

    /// Writes the paused machine into `storage`: the frames (why each was
    /// pushed and its interpreter state) with the last return data, and the
    /// staged state, as a pair of blobs. `AccountDataTooSmall`, with
    /// `storage` untouched, when they do not fit.
    pub fn save_into(&self, storage: &mut [u8]) -> (r: Result<(), crate::error::ProgramError>)
        ensures
            r is Err ==> r == Err::<(), _>(crate::error::ProgramError::AccountDataTooSmall) && final(storage)@ == old(storage)@,
            final(storage)@.len() == old(storage)@.len(),
    {
        let mut machine_blob: Vec<u8> = Vec::new();
        crate::persist::put_u64(&mut machine_blob, self.frames.len() as u64);
        let mut i: usize = 0;
        while i < self.frames.len()
            invariant
                i <= self.frames@.len(),
            decreases self.frames@.len() - i,
        {
            let f = &self.frames[i];
            match f.reason {
                None => machine_blob.push(0u8),
                Some(RuntimeReason::Call) => machine_blob.push(1u8),
                Some(RuntimeReason::Create(a)) => {
                    machine_blob.push(2u8);
                    crate::bytes::push_all(&mut machine_blob, &a);
                },
            }
            let saved = f.runtime.save();
            crate::persist::put_bytes(&mut machine_blob, saved.as_slice());
            i = i + 1;
        }
        crate::persist::put_bytes(&mut machine_blob, self.result.as_slice());
        let state_blob = self.executor.state.save();
        let mut out: Vec<u8> = Vec::new();
        crate::persist::put_pair(&mut out, machine_blob.as_slice(), state_blob.as_slice());
        if out.len() > storage.len() {
            return Err(crate::error::ProgramError::AccountDataTooSmall);
        }
        let mut k: usize = 0;
        while k < out.len()
            invariant
                k <= out@.len() <= storage@.len(),
                storage@.len() == old(storage)@.len(),
            decreases out@.len() - k,
        {
            storage[k] = out[k];
            k = k + 1;
        }
        Ok(())
    }

    /// Reads back a machine that `save_into` wrote, over a fresh backend;
    /// `None` when the bytes are not one, or their frames and sub-states do
    /// not match.
    pub fn restore(storage: &[u8], backend: crate::backend::SolanaBackend, config: crate::executor::Config) -> (r: Option<Self>)
        requires
            backend.wf(),
        ensures
            r matches Some(m) ==> m.wf() && m.executor.state.spec_backend() == backend && m.executor.config == config,
    {
        let (machine_blob, state_blob) = match crate::persist::get_pair(storage) {
            Some(x) => x,
            None => {
                return None;
            },
        };
        let state = match ExecutorState::restore(state_blob.as_slice(), backend) {
            Some(s) => s,
            None => {
                return None;
            },
        };
        let s = machine_blob.as_slice();
        let (n, mut p) = match crate::persist::get_u64(s, 0) {
            Some(x) => x,
            None => {
                return None;
            },
        };
        let mut frames: Vec<Frame<R>> = Vec::new();
        let mut i: u64 = 0;
        while i < n
            invariant
                i <= n,
                p <= s@.len(),
            decreases n - i,
        {
            if p >= s.len() {
                return None;
            }
            let tag = s[p];
            p = p + 1;
            let reason = if tag == 0 {
                None
            } else if tag == 1 {
                Some(RuntimeReason::Call)
            } else if tag == 2 {
                if s.len() - p < 20 {
                    return None;
                }
                let a: [u8; 20] = crate::bytes::array_at(s, p);
                p = p + 20;
                Some(RuntimeReason::Create(a))
            } else {
                return None;
            };
            let (blob, q) = match crate::persist::get_bytes(s, p) {
                Some(x) => x,
                None => {
                    return None;
                },
            };
            let runtime = match R::restore(blob.as_slice()) {
                Some(r) => r,
                None => {
                    return None;
                },
            };
            frames.push(Frame { runtime, reason, start: Ghost(None), handed: Ghost(None) });
            p = q;
            i = i + 1;
        }
        let (result, _) = match crate::persist::get_bytes(s, p) {
            Some(x) => x,
            None => {
                return None;
            },
        };
        if frames.len() != state.depth() {
            return None;
        }
        Some(Machine {
            executor: Executor { state, config },
            frames,
            result,
            steps: Ghost(0),
            last_outcome: Ghost(None),
            last_exit: Ghost(None),
            last_return: Ghost(Seq::empty()),
        })
    }

    /// Gives the state back, for the commit.
    pub fn into_state(self) -> (r: ExecutorState)
        ensures
            r == self.executor.state,
    {
        self.executor.state
    }
}

/// Each frame holds exactly one entered sub-state: across any step the
/// number of frames and the number of entered sub-states move together.
pub proof fn lemma_frame_discipline<R: Runtime>(before: Machine<R>, after: Machine<R>)
    requires
        before.wf(),
        after.wf(),
    ensures
        after.executor.state.spec_depth() - before.executor.state.spec_depth() == after.frames@.len()
            - before.frames@.len(),
{
}

} // verus!
