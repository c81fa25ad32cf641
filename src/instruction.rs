//! The host instructions this program takes, and the ones it emits.

use vstd::prelude::*;
use crate::bytes::{le_value, le_bytes, read_le, array_at, push_all, push_le, lemma_le_bytes_len};
use crate::error::ProgramError;
use crate::layout::{Address, Pubkey, Word};

verus! {

/// An instruction addressed to this program.
#[derive(Debug, PartialEq, Eq, Clone)]
pub enum EvmInstruction<'a> {
    /// Write code bytes into an account at `offset` past its header.
    Write { offset: u32, bytes: &'a [u8] },
    /// Run the constructor of the code written so far.
    Finalize,
    /// Create a program-derived account for `ether`.
    CreateAccount { lamports: u64, space: u64, ether: Address, nonce: u8 },
    /// Create an account derived from `base` with `seed`.
    CreateAccountWithSeed { base: Pubkey, seed: Vec<u8>, lamports: u64, space: u64, owner: Pubkey },
    /// Call a contract with these call data.
    Call { bytes: &'a [u8] },
    /// The return data of a call.
    OnReturn { bytes: &'a [u8] },
    /// A log emitted by a contract.
    OnEvent { address: Address, topics: Vec<Word>, data: &'a [u8] },
}

/// The topics of an event occupy `32 * n` bytes from `start`.
pub open spec fn topics_at(s: Seq<u8>, start: int, topics: Seq<Word>) -> bool {
    forall|i: int|
        0 <= i < topics.len() ==> #[trigger] topics[i]@ == s.subrange(
            start + 32 * i,
            start + 32 * i + 32,
        )
}

/// Whether `input` is a whole instruction: a known tag and room for every field.
pub open spec fn well_formed(input: Seq<u8>) -> bool {
    &&& input.len() >= 1
    &&& {
        let tag = input[0];
        if tag == 0 {
            input.len() >= 16 && 16 + le_value(input.subrange(8, 16)) <= input.len()
        } else if tag == 1 {
            input.len() >= 4
        } else if tag == 2 {
            input.len() >= 41
        } else if tag == 3 || tag == 5 {
            true
        } else if tag == 4 {
            input.len() >= 44 && 44 + le_value(input.subrange(36, 40)) + 48 <= input.len()
        } else if tag == 6 {
            input.len() >= 29 && 29 + 32 * le_value(input.subrange(21, 29)) <= input.len()
        } else {
            false
        }
    }
}

/// `r` is what the well-formed `input` says.
pub open spec fn parsed_as(input: Seq<u8>, r: EvmInstruction) -> bool {
    match r {
        EvmInstruction::Write { offset, bytes } => {
            let len = le_value(input.subrange(8, 16)) as int;
            &&& input[0] == 0
            &&& offset as nat == le_value(input.subrange(4, 8))
            &&& bytes@ == input.subrange(16, 16 + len)
        },
        EvmInstruction::Finalize => input[0] == 1,
        EvmInstruction::CreateAccount { lamports, space, ether, nonce } => {
            &&& input[0] == 2
            &&& lamports as nat == le_value(input.subrange(4, 12))
            &&& space as nat == le_value(input.subrange(12, 20))
            &&& ether@ == input.subrange(20, 40)
            &&& nonce == input[40]
        },
        EvmInstruction::Call { bytes } => input[0] == 3 && bytes@ == input.subrange(
            1,
            input.len() as int,
        ),
        EvmInstruction::CreateAccountWithSeed { base, seed, lamports, space, owner } => {
            let end = 44 + le_value(input.subrange(36, 40)) as int;
            &&& input[0] == 4
            &&& base@ == input.subrange(4, 36)
            &&& seed@ == input.subrange(44, end)
            &&& lamports as nat == le_value(input.subrange(end, end + 8))
            &&& space as nat == le_value(input.subrange(end + 8, end + 16))
            &&& owner@ == input.subrange(end + 16, end + 48)
        },
        EvmInstruction::OnReturn { bytes } => input[0] == 5 && bytes@ == input.subrange(
            1,
            input.len() as int,
        ),
        EvmInstruction::OnEvent { address, topics, data } => {
            let end = 29 + 32 * topics@.len() as int;
            &&& input[0] == 6
            &&& address@ == input.subrange(1, 21)
            &&& topics@.len() == le_value(input.subrange(21, 29))
            &&& topics_at(input, 29, topics@)
            &&& data@ == input.subrange(end, input.len() as int)
        },
    }
}

impl<'a> EvmInstruction<'a> {
    /// Parses an instruction: a tag byte, then the fields of its kind.
    pub fn unpack(input: &'a [u8]) -> (r: Result<EvmInstruction<'a>, ProgramError>)
        ensures
            r is Ok <==> well_formed(input@),
            r matches Ok(i) ==> parsed_as(input@, i),
            r is Err ==> r == Err::<EvmInstruction<'a>, _>(ProgramError::InvalidInstructionData),
    {
        let len = input.len();
        if len < 1 {
            return Err(ProgramError::InvalidInstructionData);
        }
        let tag = input[0];
        if tag == 0 {
            if len < 16 {
                return Err(ProgramError::InvalidInstructionData);
            }
            let offset = read_le(input, 4, 4);
            let length = read_le(input, 8, 8);
            if length > (len - 16) as u64 {
                return Err(ProgramError::InvalidInstructionData);
            }
            proof {
                lemma_u32_fits(input@.subrange(4, 8));
            }
            let end = 16 + length as usize;
            Ok(EvmInstruction::Write { offset: offset as u32, bytes: &input[16..end] })
        } else if tag == 1 {
            if len < 4 {
                return Err(ProgramError::InvalidInstructionData);
            }
            Ok(EvmInstruction::Finalize)
        } else if tag == 2 {
            if len < 41 {
                return Err(ProgramError::InvalidInstructionData);
            }
            let lamports = read_le(input, 4, 8);
            let space = read_le(input, 12, 8);
            let ether: [u8; 20] = array_at(input, 20);
            let nonce = input[40];
            Ok(EvmInstruction::CreateAccount { lamports, space, ether, nonce })
        } else if tag == 3 {
            Ok(EvmInstruction::Call { bytes: &input[1..len] })
        } else if tag == 4 {
            if len < 44 {
                return Err(ProgramError::InvalidInstructionData);
            }
            let base: [u8; 32] = array_at(input, 4);
            let seed_len = read_le(input, 36, 4);
            if seed_len > (len - 44) as u64 || 48 > (len - 44) as u64 - seed_len {
                return Err(ProgramError::InvalidInstructionData);
            }
            let end = 44 + seed_len as usize;
            let mut seed: Vec<u8> = Vec::new();
            push_all(&mut seed, &input[44..end]);
            let lamports = read_le(input, end, 8);
            let space = read_le(input, end + 8, 8);
            let owner: [u8; 32] = array_at(input, end + 16);
            Ok(EvmInstruction::CreateAccountWithSeed { base, seed, lamports, space, owner })
        } else if tag == 5 {
            Ok(EvmInstruction::OnReturn { bytes: &input[1..len] })
        } else if tag == 6 {
            if len < 29 {
                return Err(ProgramError::InvalidInstructionData);
            }
            let address: [u8; 20] = array_at(input, 1);
            let count = read_le(input, 21, 8);
            if count > ((len - 29) / 32) as u64 {
                return Err(ProgramError::InvalidInstructionData);
            }
            let mut topics: Vec<Word> = Vec::new();
            let mut i: usize = 0;
            while i < count as usize
                invariant
                    len == input@.len(),
                    29 + 32 * count <= len,
                    i <= count,
                    topics@.len() == i,
                    topics_at(input@, 29, topics@),
                decreases count - i,
            {
                let t: [u8; 32] = array_at(input, 29 + 32 * i);
                topics.push(t);
                i = i + 1;
            }
            let end = 29 + 32 * (count as usize);
            Ok(EvmInstruction::OnEvent { address, topics, data: &input[end..len] })
        } else {
            Err(ProgramError::InvalidInstructionData)
        }
    }
}

proof fn lemma_u32_fits(s: Seq<u8>)
    requires
        s.len() == 4,
    ensures
        le_value(s) < 4294967296,
{
    crate::bytes::lemma_le_value_bound(s);
    assert(crate::bytes::pow256(4) == 4294967296nat) by {
        reveal_with_fuel(crate::bytes::pow256, 5);
    }
}

/// A host account handed to an instruction, as the instruction sees it.
#[derive(Debug, Clone, Copy, PartialEq, Eq)]
pub struct AccountMeta {
    pub pubkey: Pubkey,
    pub is_signer: bool,
    pub is_writable: bool,
}

/// An instruction for the host to run: a program, its accounts, its data.
#[derive(Debug, Clone, PartialEq, Eq)]
pub struct Instruction {
    pub program_id: Pubkey,
    pub accounts: Vec<AccountMeta>,
    pub data: Vec<u8>,
}

/// A log record: the emitting contract, its topics and its data.
#[derive(Debug, Clone, PartialEq, Eq)]
pub struct Log {
    pub address: Address,
    pub topics: Vec<Word>,
    pub data: Vec<u8>,
}

/// The bytes of a log's topics, one after the other.
pub open spec fn topic_bytes(topics: Seq<Word>) -> Seq<u8>
    decreases topics.len(),
{
    if topics.len() == 0 {
        Seq::empty()
    } else {
        topic_bytes(topics.drop_last()) + topics.last()@
    }
}

/// The data of an `OnEvent` instruction for `log`.
pub open spec fn event_data(log: Log) -> Seq<u8> {
    seq![6u8] + log.address@ + le_bytes(log.topics@.len(), 8) + topic_bytes(log.topics@)
        + log.data@
}

/// Creates an `OnReturn` instruction that carries `result` back to this program.
pub fn on_return(myself_program_id: &Pubkey, result: Vec<u8>) -> (r: Result<Instruction, ProgramError>)
    ensures
        r matches Ok(ix) && ix.program_id == *myself_program_id && ix.accounts@.len() == 0
            && ix.data@ == seq![5u8] + result@,
{
    let mut data: Vec<u8> = Vec::new();
    data.push(5u8);
    push_all(&mut data, result.as_slice());
    Ok(Instruction { program_id: *myself_program_id, accounts: Vec::new(), data })
}

/// Creates an `OnEvent` instruction that carries `log` back to this program.
pub fn on_event(myself_program_id: &Pubkey, log: Log) -> (r: Result<Instruction, ProgramError>)
    requires
        log.topics@.len() <= u64::MAX,
    ensures
        r matches Ok(ix) && ix.program_id == *myself_program_id && ix.accounts@.len() == 0
            && ix.data@ == event_data(log),
{
    let mut data: Vec<u8> = Vec::new();
    data.push(6u8);
    push_all(&mut data, &log.address);
    push_le(&mut data, log.topics.len() as u64, 8);
    let mut i: usize = 0;
    while i < log.topics.len()
        invariant
            i <= log.topics@.len(),
            data@ == seq![6u8] + log.address@ + le_bytes(log.topics@.len(), 8) + topic_bytes(
                log.topics@.subrange(0, i as int),
            ),
        decreases log.topics@.len() - i,
    {
        proof {
            let next = log.topics@.subrange(0, i + 1);
            assert(next.drop_last() =~= log.topics@.subrange(0, i as int));
        }
        push_all(&mut data, &log.topics[i]);
        i = i + 1;
    }
    proof {
        assert(log.topics@.subrange(0, i as int) =~= log.topics@);
    }
    push_all(&mut data, log.data.as_slice());
    Ok(Instruction { program_id: *myself_program_id, accounts: Vec::new(), data })
}

} // verus!
