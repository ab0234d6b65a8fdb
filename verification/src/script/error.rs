//! Why a script was refused.
use crate::text::decimal;
use crate::text::hex_encode;
use crate::text::hex_text;
use crate::text::join;
use crate::text::push_decimal;
use vstd::prelude::*;
use vstd::string::*;

verus! {

/// The ways in which building or running a script fails.
#[derive(Debug, Clone, PartialEq, Eq)]
pub enum ScriptError {
    /// An operation needed more items than the stack holds.
    EmptyStack,
    /// A verified value was false.
    VerifyFailed,
    /// The opcode is not part of the language.
    InvalidOpcode(u8),
    /// The stack or the number of executed items passed its limit.
    StackOverflow,
    /// A conditional was left open.
    UnbalancedConditional,
    /// The signature is not a DER signature with the expected hash type.
    InvalidSignature,
    /// The public key does not encode a curve point.
    InvalidPublicKey,
    /// The signature does not verify.
    SignatureVerification,
    /// The script has this many bytes, more than a script may have.
    ScriptTooLarge(usize),
    /// A push announces more bytes than the script holds.
    TruncatedPush,
    /// The pushed item has this many bytes, more than a push may have.
    PushTooLarge(usize),
    /// More signatures are required than there are keys.
    MultisigKeyCount(usize, usize),
    /// The item is not a number of the accepted size.
    InvalidScriptNumber,
    /// The preimage does not match the contract's hash.
    HtlcHashMismatch,
    /// The lock time has not been reached.
    HtlcLocktimeNotExpired,
    /// The lock time is negative.
    NegativeLocktime,
    /// The lock time cannot be satisfied by this input.
    UnsatisfiedLocktime,
    /// The relative lock time cannot be satisfied by this input.
    UnsatisfiedSequence,
    /// The relative lock time is negative.
    NegativeSequence,
    /// The output carries data and cannot be spent.
    OpReturnUnspendable,
    /// The script has no standard form.
    UnknownScriptType,
    /// The script could not be serialized.
    Serialization(String),
}

/// The text that describes an error.
pub open spec fn error_text(e: ScriptError) -> Seq<char> {
    match e {
        ScriptError::EmptyStack => "Script execution failed: stack is empty"@,
        ScriptError::VerifyFailed => "Script execution failed: top of stack is false"@,
        ScriptError::StackOverflow => "Stack overflow (max depth exceeded)"@,
        ScriptError::UnbalancedConditional => "Unbalanced conditional (IF/ELSE/ENDIF mismatch)"@,
        ScriptError::InvalidSignature => "Invalid signature encoding"@,
        ScriptError::InvalidPublicKey => "Invalid public key encoding"@,
        ScriptError::SignatureVerification => "Signature verification failed"@,
        ScriptError::TruncatedPush => "Truncated push: length prefix exceeds script bounds"@,
        ScriptError::InvalidScriptNumber => "Invalid script number"@,
        ScriptError::HtlcHashMismatch => "HTLC: hash preimage does not match"@,
        ScriptError::HtlcLocktimeNotExpired => "HTLC: locktime has not expired"@,
        ScriptError::NegativeLocktime => "OP_CHECKLOCKTIMEVERIFY: negative locktime"@,
        ScriptError::UnsatisfiedLocktime => "OP_CHECKLOCKTIMEVERIFY: unsatisfied (final input or type mismatch)"@,
        ScriptError::UnsatisfiedSequence => "OP_CHECKSEQUENCEVERIFY: unsatisfied (final input, type mismatch, or insufficient age)"@,
        ScriptError::NegativeSequence => "OP_CHECKSEQUENCEVERIFY: negative locktime"@,
        ScriptError::OpReturnUnspendable => "OP_RETURN output is unspendable"@,
        ScriptError::UnknownScriptType => "Script type not recognized"@,
        ScriptError::InvalidOpcode(op) => "Invalid opcode: 0x"@ + hex_text(seq![op]),
        ScriptError::ScriptTooLarge(n) => "Script too large ("@ + decimal(n as nat)
            + " bytes, max 10000)"@,
        ScriptError::PushTooLarge(n) => "Stack item too large ("@ + decimal(n as nat)
            + " bytes, max 520)"@,
        ScriptError::MultisigKeyCount(m, n) => "Multisig: "@ + decimal(m as nat)
            + " signatures required but only "@ + decimal(n as nat) + " keys provided"@,
        ScriptError::Serialization(m) => "Serialization error: "@ + m@,
    }
}

fn counted(before: &str, n: usize, after: &str) -> (r: String)
    ensures
        r@ == before@ + decimal(n as nat) + after@,
{
    let mut r: String = before.to_owned();
    push_decimal(&mut r, n as u64);
    r.append(after);
    r
}

impl ScriptError {
    /// The text that describes the error.
    pub fn message(&self) -> (r: String)
        ensures
            r@ == error_text(*self),
    {
        match self {
            ScriptError::EmptyStack => "Script execution failed: stack is empty".to_owned(),
            ScriptError::VerifyFailed => "Script execution failed: top of stack is false".to_owned(),
            ScriptError::StackOverflow => "Stack overflow (max depth exceeded)".to_owned(),
            ScriptError::UnbalancedConditional => "Unbalanced conditional (IF/ELSE/ENDIF mismatch)".to_owned(),
            ScriptError::InvalidSignature => "Invalid signature encoding".to_owned(),
            ScriptError::InvalidPublicKey => "Invalid public key encoding".to_owned(),
            ScriptError::SignatureVerification => "Signature verification failed".to_owned(),
            ScriptError::TruncatedPush => "Truncated push: length prefix exceeds script bounds".to_owned(),
            ScriptError::InvalidScriptNumber => "Invalid script number".to_owned(),
            ScriptError::HtlcHashMismatch => "HTLC: hash preimage does not match".to_owned(),
            ScriptError::HtlcLocktimeNotExpired => "HTLC: locktime has not expired".to_owned(),
            ScriptError::NegativeLocktime => "OP_CHECKLOCKTIMEVERIFY: negative locktime".to_owned(),
            ScriptError::UnsatisfiedLocktime => "OP_CHECKLOCKTIMEVERIFY: unsatisfied (final input or type mismatch)".to_owned(),
            ScriptError::UnsatisfiedSequence => "OP_CHECKSEQUENCEVERIFY: unsatisfied (final input, type mismatch, or insufficient age)".to_owned(),
            ScriptError::NegativeSequence => "OP_CHECKSEQUENCEVERIFY: negative locktime".to_owned(),
            ScriptError::OpReturnUnspendable => "OP_RETURN output is unspendable".to_owned(),
            ScriptError::UnknownScriptType => "Script type not recognized".to_owned(),
            ScriptError::InvalidOpcode(op) => {
                let one: [u8; 1] = [*op];
                assert(one@ =~= seq![*op]);
                let digits: String = hex_encode(one.as_slice());
                join("Invalid opcode: 0x", digits.as_str())
            },
            ScriptError::ScriptTooLarge(n) => counted("Script too large (", *n, " bytes, max 10000)"),
            ScriptError::PushTooLarge(n) => counted("Stack item too large (", *n, " bytes, max 520)"),
            ScriptError::MultisigKeyCount(m, n) => {
                let mut r: String = counted("Multisig: ", *m, " signatures required but only ");
                push_decimal(&mut r, *n as u64);
                r.append(" keys provided");
                r
            },
            ScriptError::Serialization(m) => join("Serialization error: ", m.as_str()),
        }
    }
}

} // verus!
