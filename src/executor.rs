//! The EVM handler over the staged state: existence, self-destruct, and the
//! CALL and CREATE requests, which it answers with an interrupt for the
//! machine instead of running the callee itself.

use vstd::prelude::*;
use crate::backend::CreateScheme;
use crate::crypto::{create2_address, create2_address_of, create_address, create_address_of};
use crate::exit::{ExitError, ExitReason};
use crate::layout::Address;
use crate::state::ExecutorState;

verus! {

/// All but one 64th of `gas`: what a call may pass on to its callee.
pub fn l64(gas: u64) -> (r: u64)
    ensures
        r == gas - gas / 64,
{
    gas - gas / 64
}

/// The interpreter settings the handler and the machine use.
#[derive(Debug, Clone, Copy)]
pub struct Config {
    pub empty_considered_exists: bool,
    pub call_stack_limit: usize,
    pub create_contract_limit: Option<usize>,
}

impl Config {
    /// Istanbul's settings: empty accounts do not exist, 1024 frames, and
    /// 24576 bytes of created code.
    pub fn istanbul() -> (r: Config)
        ensures
            !r.empty_considered_exists,
            r.call_stack_limit == 1024,
            r.create_contract_limit == Some(24576usize),
    {
        Config { empty_considered_exists: false, call_stack_limit: 1024, create_contract_limit: Some(24576) }
    }
}

/// Where a frame runs: its address, its caller, and the value it was sent.
#[derive(Debug, Clone, Copy, PartialEq, Eq)]
pub struct Context {
    pub address: Address,
    pub caller: Address,
    pub apparent_value: u64,
}

/// A value transfer that comes with a call.
#[derive(Debug, Clone, Copy, PartialEq, Eq)]
pub struct Transfer {
    pub source: Address,
    pub target: Address,
    pub value: u64,
}

/// A CALL for the machine to run in a new frame.
#[derive(Debug, Clone)]
pub struct CallInterrupt {
    pub code_address: Address,
    pub input: Vec<u8>,
    pub context: Context,
}

/// A CREATE for the machine to run in a new frame.
#[derive(Debug, Clone)]
pub struct CreateInterrupt {
    pub init_code: Vec<u8>,
    pub context: Context,
    pub address: Address,
}

/// How the handler answers CALL: done at once, or run in a new frame.
#[derive(Debug, Clone)]
pub enum CallCapture {
    Exit(ExitReason, Vec<u8>),
    Trap(CallInterrupt),
}

/// How the handler answers CREATE: done at once, or run in a new frame.
#[derive(Debug, Clone)]
pub enum CreateCapture {
    Exit(ExitReason, Option<Address>, Vec<u8>),
    Trap(CreateInterrupt),
}

/// The address a creation scheme gives, where the caller's nonce is `nonce`.
pub open spec fn scheme_address(scheme: CreateScheme, nonce: u64) -> Seq<u8> {
    match scheme {
        CreateScheme::Create2 { caller, code_hash, salt } => create2_address(caller@, salt@, code_hash@),
        CreateScheme::Legacy { caller } => create_address(caller@, nonce as nat),
        CreateScheme::Fixed(a) => a@,
    }
}

/// The handler.
pub struct Executor {
    pub state: ExecutorState,
    pub config: Config,
}

impl Executor {
    pub open spec fn wf(&self) -> bool {
        self.state.wf()
    }

    /// No balance, no nonce and no code.
    pub open spec fn spec_is_empty(&self, a: Seq<u8>) -> bool {
        self.state.spec_balance(a) == 0 && self.state.spec_nonce(a) == 0 && self.state.spec_code(a).len() == 0
    }

    /// An account exists when the backend has it and it is not deleted; unless
    /// empty accounts count, it must also not be empty.
    pub open spec fn spec_exists(&self, a: Seq<u8>) -> bool {
        &&& self.state.spec_backend().known(a)
        &&& !crate::state::staged_delete(self.state.spec_effects(), a)
        &&& (self.config.empty_considered_exists || !self.spec_is_empty(a))
    }

    /// The address a creation under `scheme` lands on now.
    pub open spec fn spec_create_address(&self, scheme: CreateScheme) -> Seq<u8> {
        match scheme {
            CreateScheme::Legacy { caller } => scheme_address(scheme, self.state.spec_nonce(caller@)),
            _ => scheme_address(scheme, 0),
        }
    }

    /// The address of a new contract under `scheme`; under CREATE the
    /// caller's current nonce is used.
    pub fn create_address(&self, scheme: &CreateScheme) -> (r: Address)
        requires
            self.wf(),
        ensures
            r@ == self.spec_create_address(*scheme),
    {
        match scheme {
            CreateScheme::Create2 { caller, code_hash, salt } => create2_address_of(caller, salt, code_hash),
            CreateScheme::Legacy { caller } => {
                let nonce = self.state.basic(caller).nonce;
                create_address_of(caller, nonce)
            },
            CreateScheme::Fixed(a) => *a,
        }
    }

    /// Whether an account exists: not deleted, and, unless empty accounts
    /// count, holding a balance, a nonce or code.
    pub fn account_exists(&self, address: &Address) -> (r: bool)
        requires
            self.wf(),
        ensures
            r == self.spec_exists(address@),
    {
        if self.state.deleted(address) {
            return false;
        }
        let known = self.state.account_exists(address);
        if self.config.empty_considered_exists {
            known
        } else {
            known && !self.is_empty(address)
        }
    }

    /// The hash of an account's code: zero for an account that does not
    /// exist, else Keccak-256 of its code.
    pub fn code_hash(&self, address: &Address) -> (r: crate::layout::Word)
        requires
            self.wf(),
        ensures
            !self.spec_exists(address@) ==> r@ == crate::backend::zero_word(),
            self.spec_exists(address@) ==> r@ == crate::crypto::keccak256(self.state.spec_code(address@)),
    {
        if !self.account_exists(address) {
            let z = [0u8; 32];
            assert(z@ =~= crate::backend::zero_word());
            return z;
        }
        let code = self.state.code(address);
        crate::crypto::code_hash_of(code.as_slice())
    }

    /// No balance, no nonce and no code.
    pub fn is_empty(&self, address: &Address) -> (r: bool)
        requires
            self.wf(),
        ensures
            r == self.spec_is_empty(address@),
    {
        let b = self.state.basic(address);
        b.balance == 0 && b.nonce == 0 && self.state.code(address).len() == 0
    }

    /// SELFDESTRUCT: the whole balance goes to `target`, the account is
    /// emptied and marked deleted; `OutOfFund` when the transfer fails.
    pub fn mark_delete(&mut self, address: &Address, target: &Address) -> (r: Result<(), ExitError>)
        requires
            old(self).wf(),
        ensures
            final(self).wf(),
            final(self).config == old(self).config,
            final(self).state.spec_marks() == old(self).state.spec_marks(),
            final(self).state.spec_backend() == old(self).state.spec_backend(),
            r is Ok ==> crate::state::staged_delete(final(self).state.spec_effects(), address@),
            r is Ok ==> crate::state::staged_balance(final(self).state.spec_effects(), address@) == Some(0u64),
            r is Ok ==> final(self).state.spec_balance(address@) == 0,
            r is Err <==> address@ != target@ && old(self).state.spec_balance(target@) + old(self).state.spec_balance(
                address@,
            ) > u64::MAX,
            r is Err ==> r == Err::<(), _>(ExitError::OutOfFund) && final(self).state.spec_effects() == old(
                self,
            ).state.spec_effects(),
            r is Ok && address@ != target@ ==> final(self).state.spec_balance(target@) == old(self).state.spec_balance(target@)
                + old(self).state.spec_balance(address@),
    {
        let balance = self.state.basic(address).balance;
        match self.state.transfer(address, target, balance) {
            Ok(()) => {},
            Err(e) => {
                return Err(e);
            },
        }
        self.state.reset_balance(address);
        let ghost e1 = self.state.spec_effects();
        proof {
            assert(e1.last() == crate::state::Effect::Balance { address: *address, value: 0 });
        }
        self.state.set_deleted(address);
        proof {
            let e = self.state.spec_effects();
            assert(crate::state::is_delete_of(e[e.len() - 1], address@));
            assert(e.drop_last() == e1);
            assert(crate::state::staged_balance(e, address@) == crate::state::staged_balance(e1, address@));
            assert(crate::state::staged_balance(e1, address@) == Some(0u64));
            if address@ != target@ {
                let e2 = e1.drop_last();
                assert(e2.last() == crate::state::Effect::Balance { address: *target, value: (old(self).state.spec_balance(target@) + old(self).state.spec_balance(address@)) as u64 });
                assert(crate::state::staged_balance(e, target@) == crate::state::staged_balance(e1, target@));
                assert(crate::state::staged_balance(e1, target@) == crate::state::staged_balance(e2, target@));
                assert(crate::state::staged_balance(e2, target@) == Some((old(self).state.spec_balance(target@) + old(self).state.spec_balance(address@)) as u64));
            }
        }
        Ok(())
    }

    /// CREATE: fails with `CallTooDeep` past the frame limit; otherwise bumps
    /// the caller's nonce, fails with `CreateCollision` when the new address
    /// already holds code or a nonce, and else asks for a frame that runs
    /// `init_code` at the new address.
    pub fn create(&mut self, caller: &Address, scheme: &CreateScheme, value: u64, init_code: &Vec<u8>) -> (r: CreateCapture)
        requires
            old(self).wf(),
        ensures
            final(self).wf(),
            final(self).config == old(self).config,
            final(self).state.spec_marks() == old(self).state.spec_marks(),
            final(self).state.spec_backend() == old(self).state.spec_backend(),
            old(self).state.spec_depth() + 1 > old(self).config.call_stack_limit ==> (r matches CreateCapture::Exit(reason, None, data)
                && reason == ExitReason::Error(ExitError::CallTooDeep) && data@.len() == 0
                && final(self).state.spec_effects() == old(self).state.spec_effects()),
            r matches CreateCapture::Trap(ci) ==> ci.init_code@ == init_code@ && ci.context.address == ci.address
                && ci.context.caller == *caller && ci.context.apparent_value == value
                && ci.address@ == old(self).spec_create_address(*scheme),
            old(self).state.spec_depth() + 1 <= old(self).config.call_stack_limit ==> final(self).state.spec_effects()
                == old(self).state.spec_effects().push(crate::state::Effect::Nonce {
                    address: *caller,
                    value: if old(self).state.spec_nonce(caller@) < u64::MAX {
                        (old(self).state.spec_nonce(caller@) + 1) as u64
                    } else {
                        old(self).state.spec_nonce(caller@)
                    },
                }),
            old(self).state.spec_depth() + 1 <= old(self).config.call_stack_limit ==> ((r is Trap) <==> (
                final(self).state.spec_code(old(self).spec_create_address(*scheme)).len() == 0 && final(self).state.spec_nonce(
                    old(self).spec_create_address(*scheme),
                ) == 0)),
            old(self).state.spec_depth() + 1 <= old(self).config.call_stack_limit && !(r is Trap) ==> (r matches CreateCapture::Exit(reason, None, data)
                && reason == ExitReason::Error(ExitError::CreateCollision) && data@.len() == 0),
    {
        if self.state.depth() >= self.config.call_stack_limit {
            return CreateCapture::Exit(ExitReason::Error(ExitError::CallTooDeep), None, Vec::new());
        }
        let address = self.create_address(scheme);
        self.state.inc_nonce(caller);
        if self.state.code(&address).len() != 0 || self.state.basic(&address).nonce != 0 {
            return CreateCapture::Exit(ExitReason::Error(ExitError::CreateCollision), None, Vec::new());
        }
        let mut code: Vec<u8> = Vec::new();
        crate::bytes::push_all(&mut code, init_code.as_slice());
        let context = Context { address, caller: *caller, apparent_value: value };
        CreateCapture::Trap(CreateInterrupt { init_code: code, context, address })
    }

    /// CALL: fails with `CallTooDeep` past the frame limit; a call to the
    /// hook address is answered by the backend; any other asks for a frame.
    pub fn call(&mut self, code_address: &Address, input: Vec<u8>, context: Context) -> (r: CallCapture)
        requires
            old(self).wf(),
        ensures
            final(self).wf(),
            final(self).config == old(self).config,
            final(self).state.spec_marks() == old(self).state.spec_marks(),
            final(self).state.spec_backend() == old(self).state.spec_backend(),
            (old(self).state.spec_depth() + 1 > old(self).config.call_stack_limit || !crate::cpi::is_hook_address(code_address@))
                ==> final(self).state.spec_effects() == old(self).state.spec_effects(),
            old(self).state.spec_depth() + 1 > old(self).config.call_stack_limit ==> (r matches CallCapture::Exit(reason, data)
                && reason == ExitReason::Error(ExitError::CallTooDeep) && data@.len() == 0),
            old(self).state.spec_depth() + 1 <= old(self).config.call_stack_limit && !crate::cpi::is_hook_address(code_address@)
                ==> (r matches CallCapture::Trap(ci) && ci.code_address == *code_address && ci.input@ == input@ && ci.context == context),
            old(self).state.spec_depth() + 1 <= old(self).config.call_stack_limit && crate::cpi::is_hook_address(code_address@)
                ==> (r matches CallCapture::Exit(reason, data) && data@.len() == 0 && crate::state::staged_hook(
                    old(self).state.spec_backend(), old(self).state.spec_effects(), final(self).state.spec_effects(), input@, reason)),
            old(self).state.spec_depth() + 1 > old(self).config.call_stack_limit ==> final(self).state.spec_backend() == old(self).state.spec_backend(),
            !crate::cpi::is_hook_address(code_address@) ==> final(self).state.spec_backend() == old(self).state.spec_backend(),
            final(self).state.spec_backend().accounts == old(self).state.spec_backend().accounts,
    {
        if self.state.depth() >= self.config.call_stack_limit {
            return CallCapture::Exit(ExitReason::Error(ExitError::CallTooDeep), Vec::new());
        }
        match self.state.call_inner(code_address, input.as_slice()) {
            Some((reason, data)) => CallCapture::Exit(reason, data),
            None => CallCapture::Trap(CallInterrupt { code_address: *code_address, input, context }),
        }
    }
}

/// Creation addresses depend on the world state alone: two executors whose
/// staged effects and backend agree give every scheme the same address, and
/// `create` traps only at that address.
pub proof fn lemma_create_address_deterministic(e1: Executor, e2: Executor, scheme: CreateScheme)
    requires
        e1.state.spec_effects() == e2.state.spec_effects(),
        e1.state.spec_backend() == e2.state.spec_backend(),
    ensures
        e1.spec_create_address(scheme) == e2.spec_create_address(scheme),
{
}

} // verus!
