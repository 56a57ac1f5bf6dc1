//! The decisions of an on-chain program that verifies signatures and registers
//! keys. Reading the serialised input and writing the account are left to the
//! entry point.

use vstd::prelude::*;
use vstd::slice::slice_subrange;

use solana_program_error::ProgramError;

use crate::acceptance::{accepts, accepts_prepared, deserialised, prepares, serialised, PreparedKey};
use crate::keys::{
    take_array, HawkError, Hawk512PreparedPubkey, Hawk512Pubkey, Hawk512Signature,
};
use crate::{HAWK_512_PREPARED_PUBKEY_LEN, HAWK_512_PUBKEY_LEN, HAWK_512_SIGNATURE_LEN};

verus! {

/// The code of a signature that is not accepted.
pub const ERR_VERIFY_FAILED: u64 = 3;

/// The code of a key that cannot be prepared.
pub const ERR_PREPARE_FAILED: u64 = 4;

/// The room that the runtime leaves behind the data of an account.
pub const MAX_PERMITTED_DATA_INCREASE: usize = 10240;

/// Where the account record starts: behind the count of accounts.
pub const ACCOUNT_OFFSET: usize = 8;

/// Where the length of the account's data stands: at the end of the header.
pub const ACCOUNT_LEN_OFFSET: usize = 88;

/// Where the account's data stands: behind the header.
pub const ACCOUNT_DATA_OFFSET: usize = 96;

/// The first byte of an account record that repeats no earlier account.
pub const NON_DUP_MARKER: u8 = 0xff;

/// The code that a program returns for an error.
pub open spec fn error_code(e: HawkError) -> u64 {
    match e {
        HawkError::InvalidArgument => 0x2_0000_0000,
        HawkError::InvalidInstructionData => 0x3_0000_0000,
        HawkError::AccountDataTooSmall => 0x5_0000_0000,
    }
}

/// The code that a program returns for an error. Calls `u64::from` on the
/// variant of the same name of `ProgramError` in `solana_program_error`.
/// Trusted: the codes are the variants' numbers in that crate, shifted left by
/// 32 bits.
#[verifier::external_body]
fn program_error_code(e: HawkError) -> (code: u64)
    ensures
        code == error_code(e),
{
    u64::from(match e {
        HawkError::InvalidArgument => ProgramError::InvalidArgument,
        HawkError::InvalidInstructionData => ProgramError::InvalidInstructionData,
        HawkError::AccountDataTooSmall => ProgramError::AccountDataTooSmall,
    })
}

/// The code for an instruction that cannot be read.
pub fn invalid_instruction() -> (code: u64)
    ensures
        code == error_code(HawkError::InvalidInstructionData),
{
    program_error_code(HawkError::InvalidInstructionData)
}

/// Whether an account comes with the instruction, or the code to return: there
/// may be none, or one that is marked as no duplicate. `marker` is the first
/// byte of the account record, and is looked at only if there is one account.
pub fn account_present(num_accounts: u64, marker: u8) -> (r: Result<bool, u64>)
    ensures
        r == if num_accounts == 0 {
            Ok::<bool, u64>(false)
        } else if num_accounts == 1 && marker == NON_DUP_MARKER {
            Ok(true)
        } else {
            Err(error_code(HawkError::InvalidInstructionData))
        },
{
    if num_accounts == 1 {
        if marker != NON_DUP_MARKER {
            return Err(program_error_code(HawkError::InvalidInstructionData));
        }
        Ok(true)
    } else if num_accounts != 0 {
        Err(program_error_code(HawkError::InvalidInstructionData))
    } else {
        Ok(false)
    }
}

/// Where the account record ends: behind the count of accounts, the header,
/// the data, the room for growth and the rent epoch.
pub open spec fn account_end(data_len: int) -> int {
    ACCOUNT_DATA_OFFSET + data_len + MAX_PERMITTED_DATA_INCREASE + 8
}

/// Where the length of the instruction data stands if one account with
/// `data_len` bytes of data comes before it: the next multiple of eight.
pub fn instruction_offset(data_len: usize) -> (off: usize)
    requires
        account_end(data_len as int) + 7 <= usize::MAX,
    ensures
        off % 8 == 0,
        account_end(data_len as int) <= off < account_end(data_len as int) + 8,
{
    let end: usize = ACCOUNT_DATA_OFFSET + data_len + MAX_PERMITTED_DATA_INCREASE + 8;
    end + (8 - end % 8) % 8
}

/// The data of an account: where it stands and how long it is.
#[derive(Clone, Copy)]
pub struct Account {
    pub address: usize,
    pub len: usize,
}

/// What an instruction comes to: the code to return, and the bytes to write to
/// the front of the account.
pub struct Outcome {
    pub code: u64,
    pub write: Option<[u8; HAWK_512_PREPARED_PUBKEY_LEN]>,
}

/// The key of a raw verification or a registration.
pub open spec fn key_part(data: Seq<u8>) -> Seq<u8> {
    data.subrange(1, 1025)
}

/// An instruction to verify under a key that comes with it: the key, the
/// signature and the message.
pub open spec fn raw_code(data: Seq<u8>) -> u64 {
    if data.len() < 1 + 1024 + 555 {
        error_code(HawkError::InvalidInstructionData)
    } else if accepts(
        key_part(data),
        data.subrange(1580, data.len() as int),
        data.subrange(1025, 1580),
    ) {
        0
    } else {
        ERR_VERIFY_FAILED
    }
}

/// An instruction to verify under the program's own prepared key: the
/// signature and the message.
pub open spec fn prepared_code(data: Seq<u8>, baked: PreparedKey) -> u64 {
    if data.len() < 1 + 555 {
        error_code(HawkError::InvalidInstructionData)
    } else if accepts_prepared(
        baked,
        data.subrange(556, data.len() as int),
        data.subrange(1, 556),
    ) {
        0
    } else {
        ERR_VERIFY_FAILED
    }
}

/// An instruction to register a key: the key, and an account with room for its
/// prepared form.
pub open spec fn register_code(data: Seq<u8>, account: Option<Account>) -> u64 {
    match account {
        None => error_code(HawkError::InvalidInstructionData),
        Some(a) => if a.len < HAWK_512_PREPARED_PUBKEY_LEN {
            error_code(HawkError::AccountDataTooSmall)
        } else if data.len() < 1 + 1024 {
            error_code(HawkError::InvalidInstructionData)
        } else if a.address % 8 == 0 && exists|k: PreparedKey| prepares(key_part(data), k) {
            0
        } else {
            ERR_PREPARE_FAILED
        },
    }
}

/// The code that an instruction returns. Its first byte is the mode.
pub open spec fn instruction_code(
    data: Seq<u8>,
    account: Option<Account>,
    baked: PreparedKey,
) -> u64 {
    if data.len() == 0 {
        error_code(HawkError::InvalidInstructionData)
    } else if data[0] == 0 {
        raw_code(data)
    } else if data[0] == 1 {
        prepared_code(data, baked)
    } else if data[0] == 2 {
        register_code(data, account)
    } else {
        error_code(HawkError::InvalidInstructionData)
    }
}

/// Zero for a signature that is accepted.
fn verdict(ok: bool) -> (code: u64)
    ensures
        code == if ok {
            0
        } else {
            ERR_VERIFY_FAILED
        },
{
    if ok {
        0
    } else {
        ERR_VERIFY_FAILED
    }
}

/// Verifies under a key that comes with the instruction.
fn process_raw(data: &[u8]) -> (code: u64)
    ensures
        code == raw_code(data@),
{
    if data.len() < 1 + HAWK_512_PUBKEY_LEN + HAWK_512_SIGNATURE_LEN {
        return program_error_code(HawkError::InvalidInstructionData);
    }
    let key: Hawk512Pubkey = Hawk512Pubkey::from_bytes(take_array::<HAWK_512_PUBKEY_LEN>(data, 1));
    let sig: Hawk512Signature = Hawk512Signature::from_bytes(
        take_array::<HAWK_512_SIGNATURE_LEN>(data, 1025),
    );
    let message: &[u8] = slice_subrange(data, 1580, data.len());
    assert(key@ == key_part(data@));
    assert(sig@ == data@.subrange(1025, 1580));
    verdict(sig.verify(message, &key))
}

/// Verifies under the program's own prepared key.
fn process_prepared(data: &[u8], baked: &Hawk512PreparedPubkey) -> (code: u64)
    ensures
        code == prepared_code(data@, baked@),
{
    if data.len() < 1 + HAWK_512_SIGNATURE_LEN {
        return program_error_code(HawkError::InvalidInstructionData);
    }
    let sig: Hawk512Signature = Hawk512Signature::from_bytes(
        take_array::<HAWK_512_SIGNATURE_LEN>(data, 1),
    );
    let message: &[u8] = slice_subrange(data, 556, data.len());
    assert(sig@ == data@.subrange(1, 556));
    verdict(sig.verify_with_prepared(message, baked))
}

/// Registers a key.
fn process_register(data: &[u8], account: Option<Account>) -> (r: Outcome)
    ensures
        r.code == register_code(data@, account),
        r.write is Some <==> r.code == 0,
        r.write matches Some(bytes) ==> {
            &&& prepares(key_part(data@), deserialised(bytes@))
            &&& forall|k: PreparedKey| #[trigger]
                prepares(key_part(data@), k) ==> bytes@ == serialised(k)
        },
{
    let place: Account = match account {
        None => {
            return Outcome {
                code: program_error_code(HawkError::InvalidInstructionData),
                write: None,
            };
        },
        Some(place) => place,
    };
    if place.len < HAWK_512_PREPARED_PUBKEY_LEN {
        return Outcome { code: program_error_code(HawkError::AccountDataTooSmall), write: None };
    }
    if data.len() < 1 + HAWK_512_PUBKEY_LEN {
        return Outcome { code: program_error_code(HawkError::InvalidInstructionData), write: None };
    }
    let key: Hawk512Pubkey = Hawk512Pubkey::from_bytes(take_array::<HAWK_512_PUBKEY_LEN>(data, 1));
    assert(key@ == key_part(data@));
    let mut out: [u8; HAWK_512_PREPARED_PUBKEY_LEN] = [0u8; HAWK_512_PREPARED_PUBKEY_LEN];
    match key.prepare_at(place.address, &mut out) {
        Ok(_) => Outcome { code: 0, write: Some(out) },
        Err(_) => Outcome { code: ERR_PREPARE_FAILED, write: None },
    }
}

/// Carries out an instruction. `account` is the account that comes with it, if
/// one does, and `baked` the program's own key.
pub fn process_instruction(
    data: &[u8],
    account: Option<Account>,
    baked: &Hawk512PreparedPubkey,
) -> (r: Outcome)
    ensures
        r.code == instruction_code(data@, account, baked@),
        r.write is Some <==> data@.len() > 0 && data@[0] == 2 && r.code == 0,
        r.write matches Some(bytes) ==> {
            &&& prepares(key_part(data@), deserialised(bytes@))
            &&& forall|k: PreparedKey| #[trigger]
                prepares(key_part(data@), k) ==> bytes@ == serialised(k)
        },
{
    if data.len() < 1 {
        return Outcome { code: program_error_code(HawkError::InvalidInstructionData), write: None };
    }
    let mode: u8 = data[0];
    if mode == 0 {
        Outcome { code: process_raw(data), write: None }
    } else if mode == 1 {
        Outcome { code: process_prepared(data, baked), write: None }
    } else if mode == 2 {
        process_register(data, account)
    } else {
        Outcome { code: program_error_code(HawkError::InvalidInstructionData), write: None }
    }
}

} // verus!
