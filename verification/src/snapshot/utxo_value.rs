//! The value of a chainstate record: height, amount and script of an unspent output.
use crate::bytes::append_slice;
use crate::bytes::array20;
use crate::bytes::copy_range;
use crate::script::standard::p2pkh_form;
use crate::script::standard::p2sh_form;
use crate::snapshot::chainstate::amount_fits;
use crate::snapshot::chainstate::base128;
use crate::snapshot::chainstate::decode_varint_base128;
use crate::snapshot::chainstate::decompress_amount;
use crate::snapshot::chainstate::decompressed;
use crate::snapshot::chainstate::RawUtxo;
use crate::snapshot::error::SnapshotError;
use crate::snapshot::error::SnapshotFault;
use crate::text::decimal;
use crate::text::push_decimal;
use vstd::prelude::*;
use vstd::string::*;

verus! {

/// What a legacy address stands for.
#[derive(Debug, Clone, Copy, PartialEq, Eq)]
pub enum LegacyAddress {
    /// The hash of a public key.
    PubkeyHash([u8; 20]),
    /// The hash of a redeem script.
    ScriptHash([u8; 20]),
}

/// A `LegacyAddress` with its hash as a byte sequence.
pub enum Payee {
    PubkeyHash(Seq<u8>),
    ScriptHash(Seq<u8>),
}

impl View for LegacyAddress {
    type V = Payee;

    open spec fn view(&self) -> Payee {
        match self {
            LegacyAddress::PubkeyHash(h) => Payee::PubkeyHash(h@),
            LegacyAddress::ScriptHash(h) => Payee::ScriptHash(h@),
        }
    }
}

/// An unspent output with its fields unpacked.
#[derive(Debug, Clone)]
pub struct ParsedUtxo {
    /// The transaction id.
    pub txid: [u8; 32],
    /// The output's index in its transaction.
    pub vout: u32,
    /// The height of the block that created it.
    pub height: u32,
    /// Whether a coinbase transaction created it.
    pub is_coinbase: bool,
    /// The amount.
    pub amount: u64,
    /// The output script.
    pub script: Vec<u8>,
    /// The address that the script pays to, if it has one.
    pub address: Option<LegacyAddress>,
}

/// A `ParsedUtxo` as a value.
#[verifier::ext_equal]
pub struct Unspent {
    pub txid: Seq<u8>,
    pub vout: u32,
    pub height: u32,
    pub is_coinbase: bool,
    pub amount: nat,
    pub script: Seq<u8>,
    pub address: Option<Payee>,
}

impl View for ParsedUtxo {
    type V = Unspent;

    open spec fn view(&self) -> Unspent {
        Unspent {
            txid: self.txid@,
            vout: self.vout,
            height: self.height,
            is_coinbase: self.is_coinbase,
            amount: self.amount as nat,
            script: self.script@,
            address: match self.address {
                Some(a) => Some(a@),
                None => None,
            },
        }
    }
}

/// The text of the refusal of a raw script.
pub open spec fn raw_script_short(need: nat, have: nat) -> Seq<char> {
    "Raw script too short: need "@ + decimal(need) + ", have "@ + decimal(have)
}

/// The output script that a compressed script of this type stands for.
pub open spec fn expanded_script(kind: nat, data: Seq<u8>) -> Result<Seq<u8>, SnapshotFault> {
    if kind == 0 {
        if data.len() < 20 {
            Err(SnapshotFault::BlockParse("P2PKH script too short"@))
        } else {
            Ok(seq![0x76u8, 0xa9u8, 0x14u8] + data.take(20) + seq![0x88u8, 0xacu8])
        }
    } else if kind == 1 {
        if data.len() < 20 {
            Err(SnapshotFault::BlockParse("P2SH script too short"@))
        } else {
            Ok(seq![0xa9u8, 0x14u8] + data.take(20) + seq![0x87u8])
        }
    } else if kind <= 3 {
        if data.len() < 32 {
            Err(SnapshotFault::BlockParse("P2PK compressed script too short"@))
        } else {
            Ok(seq![0x21u8, kind as u8] + data.take(32) + seq![0xacu8])
        }
    } else if kind <= 5 {
        if data.len() < 64 {
            Err(SnapshotFault::BlockParse("P2PK uncompressed script too short"@))
        } else {
            Ok(
                seq![
                    0x41u8,
                    if kind == 4 {
                        0x04u8
                    } else {
                        0x06u8
                    },
                ] + data.take(64) + seq![0xacu8],
            )
        }
    } else if data.len() < kind - 6 {
        Err(SnapshotFault::BlockParse(raw_script_short((kind - 6) as nat, data.len())))
    } else {
        Ok(data.take(kind - 6))
    }
}

fn refusal(text: &str) -> (e: SnapshotError)
    ensures
        e@ == SnapshotFault::BlockParse(text@),
{
    SnapshotError::BlockParse(text.to_owned())
}

/// Expands a compressed script.
pub fn decode_script(script_type: u64, data: &[u8]) -> (r: Result<Vec<u8>, SnapshotError>)
    ensures
        match expanded_script(script_type as nat, data@) {
            Ok(s) => r matches Ok(v) && v@ == s,
            Err(f) => r matches Err(e) && e@ == f,
        },
{
    if script_type >= 6 {
        let need: u64 = script_type - 6;
        if (data.len() as u64) < need {
            let mut text: String = "Raw script too short: need ".to_owned();
            push_decimal(&mut text, need);
            text.append(", have ");
            push_decimal(&mut text, data.len() as u64);
            return Err(SnapshotError::BlockParse(text));
        }
        let body: Vec<u8> = copy_range(data, 0, need as usize);
        assert(body@ =~= data@.take(need as int));
        return Ok(body);
    }
    let need: usize = if script_type <= 1 {
        20
    } else if script_type <= 3 {
        32
    } else {
        64
    };
    if data.len() < need {
        return Err(
            if script_type == 0 {
                refusal("P2PKH script too short")
            } else if script_type == 1 {
                refusal("P2SH script too short")
            } else if script_type <= 3 {
                refusal("P2PK compressed script too short")
            } else {
                refusal("P2PK uncompressed script too short")
            },
        );
    }
    let mut script: Vec<u8> = Vec::new();
    if script_type == 0 {
        script.push(0x76);
        script.push(0xa9);
        script.push(0x14);
    } else if script_type == 1 {
        script.push(0xa9);
        script.push(0x14);
    } else if script_type <= 3 {
        script.push(0x21);
        script.push(script_type as u8);
    } else {
        script.push(0x41);
        script.push(if script_type == 4 {
            0x04
        } else {
            0x06
        });
    }
    let body: &[u8] = vstd::slice::slice_subrange(data, 0, need);
    assert(body@ =~= data@.take(need as int));
    append_slice(&mut script, body);
    if script_type == 0 {
        script.push(0x88);
    }
    if script_type == 1 {
        script.push(0x87);
    } else {
        script.push(0xac);
    }
    assert(script@ =~= expanded_script(script_type as nat, data@)->Ok_0);
    Ok(script)
}

/// The address that an output script pays to, if it has one.
pub open spec fn payee_of(script: Seq<u8>) -> Option<Payee> {
    if p2pkh_form(script) {
        Some(Payee::PubkeyHash(script.subrange(3, 23)))
    } else if p2sh_form(script) {
        Some(Payee::ScriptHash(script.subrange(2, 22)))
    } else {
        None
    }
}

/// The address that an output script pays to, if it has one.
pub fn script_to_address(script: &[u8]) -> (r: Option<LegacyAddress>)
    ensures
        match payee_of(script@) {
            Some(p) => r matches Some(a) && a@ == p,
            None => r is None,
        },
{
    let len: usize = script.len();
    if len == 25 && script[0] == 0x76 && script[1] == 0xa9 && script[2] == 0x14 && script[23] == 0x88
        && script[24] == 0xac {
        return Some(LegacyAddress::PubkeyHash(array20(script, 3)));
    }
    if len == 23 && script[0] == 0xa9 && script[1] == 0x14 && script[22] == 0x87 {
        return Some(LegacyAddress::ScriptHash(array20(script, 2)));
    }
    None
}

/// The compressed amount in a record's value, and where its script starts.
pub open spec fn packed_amount(data: Seq<u8>) -> Option<nat> {
    match base128(data, 0, 0) {
        None => None,
        Some((_, n1)) => match base128(data.skip(n1 as int), 0, 0) {
            None => None,
            Some((amount, _)) => Some(amount),
        },
    }
}

/// What a record's value says of an output.
pub open spec fn unpacked(raw: RawUtxo) -> Result<Unspent, SnapshotFault> {
    let data = raw.value_bytes@;
    match base128(data, 0, 0) {
        None => Err(SnapshotFault::BlockParse("Failed to read height/coinbase varint"@)),
        Some((packed, n1)) => match base128(data.skip(n1 as int), 0, 0) {
            None => Err(SnapshotFault::BlockParse("Failed to read amount varint"@)),
            Some((amount, n2)) => match base128(data.skip((n1 + n2) as int), 0, 0) {
                None => Err(SnapshotFault::BlockParse("Failed to read script type varint"@)),
                Some((kind, n3)) => match expanded_script(
                    kind,
                    data.skip((n1 + n2 + n3) as int),
                ) {
                    Err(f) => Err(f),
                    Ok(script) => Ok(
                        Unspent {
                            txid: raw.txid@,
                            vout: raw.vout,
                            height: (packed / 2 % 0x1_0000_0000) as u32,
                            is_coinbase: packed % 2 == 1,
                            amount: decompressed(amount),
                            script,
                            address: payee_of(script),
                        },
                    ),
                },
            },
        },
    }
}

/// Whether the amount in a record's value is one that 64 bits hold.
pub open spec fn amount_in_range(raw: RawUtxo) -> bool {
    packed_amount(raw.value_bytes@) matches Some(x) ==> decompressed(x) <= u64::MAX
}

/// Whether the amount in a record's value is one that 64 bits hold.
pub fn value_in_range(raw: &RawUtxo) -> (r: bool)
    ensures
        r == amount_in_range(*raw),
{
    let data: &[u8] = raw.value_bytes.as_slice();
    match decode_varint_base128(data) {
        None => true,
        Some((_, n1)) => {
            let rest: &[u8] = vstd::slice::slice_subrange(data, n1, data.len());
            assert(rest@ =~= data@.skip(n1 as int));
            match decode_varint_base128(rest) {
                None => true,
                Some((amount, _)) => amount_fits(amount),
            }
        },
    }
}

/// Unpacks a record's value.
pub fn parse_utxo_value(raw: &RawUtxo) -> (r: Result<ParsedUtxo, SnapshotError>)
    requires
        amount_in_range(*raw),
    ensures
        match unpacked(*raw) {
            Ok(u) => r matches Ok(p) && p@ == u,
            Err(f) => r matches Err(e) && e@ == f,
        },
{
    let data: &[u8] = raw.value_bytes.as_slice();
    let (packed, n1): (u64, usize) = match decode_varint_base128(data) {
        None => {
            return Err(refusal("Failed to read height/coinbase varint"));
        },
        Some(v) => v,
    };
    let rest: &[u8] = vstd::slice::slice_subrange(data, n1, data.len());
    assert(rest@ =~= data@.skip(n1 as int));
    let (compressed, n2): (u64, usize) = match decode_varint_base128(rest) {
        None => {
            return Err(refusal("Failed to read amount varint"));
        },
        Some(v) => v,
    };
    let amount: u64 = decompress_amount(compressed);
    let rest: &[u8] = vstd::slice::slice_subrange(data, n1 + n2, data.len());
    assert(rest@ =~= data@.skip(n1 + n2));
    let (kind, n3): (u64, usize) = match decode_varint_base128(rest) {
        None => {
            return Err(refusal("Failed to read script type varint"));
        },
        Some(v) => v,
    };
    let rest: &[u8] = vstd::slice::slice_subrange(data, n1 + n2 + n3, data.len());
    assert(rest@ =~= data@.skip(n1 + n2 + n3));
    let script: Vec<u8> = decode_script(kind, rest)?;
    let address: Option<LegacyAddress> = script_to_address(script.as_slice());
    Ok(
        ParsedUtxo {
            txid: raw.txid,
            vout: raw.vout,
            height: (packed / 2 % 0x1_0000_0000) as u32,
            is_coinbase: packed % 2 == 1,
            amount,
            script,
            address,
        },
    )
}

} // verus!
