//! Scripts as they are built, read and run.

use ripemd::Ripemd160;
use secp256k1::{Message, PublicKey, Secp256k1, SecretKey};
use sha2::{Digest, Sha256};
use vtorrent::crypto::{hash160, sha256d};
use vtorrent::script::engine::{check_sig, is_p2sh, push_arith_result, Engine, ScriptEnv};
use vtorrent::script::error::ScriptError;
use vtorrent::script::number::{bool_to_bytes, decode_script_num, int_to_bytes, is_true};
use vtorrent::script::program::{Script, ScriptItem, MAX_PUSH_SIZE, MAX_SCRIPT_SIZE};
use vtorrent::script::standard::{
    build_htlc, build_op_return, build_p2ms, build_p2pkh, build_p2sh, classify_script, ScriptType,
};

#[test]
fn digests_are_those_of_their_crates() {
    let once = Sha256::digest(b"data");
    assert_eq!(sha256d(b"data"), <[u8; 32]>::from(Sha256::digest(once)));
    assert_eq!(hash160(b"data"), <[u8; 20]>::from(Ripemd160::digest(once)));
}

#[test]
fn pushed_data_reads_back() {
    for n in [0usize, 1, 75, 76, 255, 256, 520] {
        let data = vec![7u8; n];
        let mut s = Script::new();
        s.push_data(&data).unwrap();
        s.validate().unwrap();
        let mut items = s.iter();
        match items.next() {
            Some(ScriptItem::PushData(d)) => assert_eq!(d, &data[..]),
            Some(ScriptItem::Opcode(op)) => assert_eq!((op, n), (0, 0)),
            None => panic!("nothing pushed"),
        }
        assert!(items.next().is_none());
    }
    let mut s = Script::new();
    assert!(matches!(s.push_data(&[0; MAX_PUSH_SIZE + 1]), Err(ScriptError::PushTooLarge(521))));
    assert!(s.is_empty());
    assert!(matches!(
        Script::from_bytes(vec![0x61; MAX_SCRIPT_SIZE + 1]),
        Err(ScriptError::ScriptTooLarge(10_001))
    ));
    assert!(matches!(
        Script::from_bytes(vec![5, 1, 2]).and_then(|s| s.validate()),
        Err(ScriptError::TruncatedPush)
    ));
}

#[test]
fn numbers_read_back() {
    for n in [0i64, 1, -1, 127, 128, -128, 255, 256, 32_767, -32_768, 0x7fff_ffff, -0x7fff_ffff] {
        let bytes = int_to_bytes(n);
        assert!(bytes.len() <= 4);
        assert_eq!(decode_script_num(&bytes, 4).unwrap(), n);
        assert_eq!(is_true(&bytes), n != 0);
    }
    assert_eq!(int_to_bytes(-255), vec![0xff, 0x80]);
    assert!(!is_true(&[0, 0x80]) && is_true(&[0, 1]));
    assert_eq!(bool_to_bytes(true), vec![1]);
    assert!(!is_true(&bool_to_bytes(false)));
    assert!(matches!(decode_script_num(&[1, 2, 3, 4, 5], 4), Err(ScriptError::InvalidScriptNumber)));
    let mut stack = Vec::new();
    assert!(push_arith_result(&mut stack, Some(0x8000_0000)).is_err());
    assert!(push_arith_result(&mut stack, None).is_err());
    push_arith_result(&mut stack, Some(5)).unwrap();
    assert_eq!(stack, vec![vec![5]]);
}

#[test]
fn built_scripts_are_recognised() {
    assert_eq!(classify_script(&build_p2pkh(&[1; 20])), ScriptType::P2PKH);
    assert_eq!(classify_script(&build_p2sh(&[1; 20])), ScriptType::P2SH);
    assert!(is_p2sh(&build_p2sh(&[1; 20])) && !is_p2sh(&build_p2pkh(&[1; 20])));
    assert_eq!(
        classify_script(&build_p2ms(2, &[vec![2; 33], vec![3; 33]]).unwrap()),
        ScriptType::P2MS { m: 2, n: 2 }
    );
    assert_eq!(classify_script(&build_htlc(&[1; 32], &[2; 20], &[3; 20], 9)), ScriptType::Htlc);
    assert_eq!(classify_script(&build_op_return(b"x").unwrap()), ScriptType::OpReturn);
    assert_eq!(classify_script(&Script::new()), ScriptType::NonStandard);
    assert!(matches!(build_p2ms(3, &[vec![2; 33]]), Err(ScriptError::MultisigKeyCount(3, 1))));
    assert!(matches!(build_op_return(&[0; 81]), Err(ScriptError::PushTooLarge(81))));
}

struct Signer {
    public: Vec<u8>,
    sig: Vec<u8>,
}

const DIGEST: [u8; 32] = [0x42; 32];

fn signer(seed: u8) -> Signer {
    let secp = Secp256k1::new();
    let key = SecretKey::from_slice(&[seed; 32]).unwrap();
    let mut sig = secp.sign_ecdsa(&Message::from_digest(DIGEST), &key).serialize_der().to_vec();
    sig.push(0x01);
    Signer { public: PublicKey::from_secret_key(&secp, &key).serialize().to_vec(), sig }
}

fn pushes(items: &[&[u8]], last: Option<u8>) -> Script {
    let mut s = Script::new();
    for i in items {
        s.push_data(i).unwrap();
    }
    if let Some(op) = last {
        s.push_opcode(op);
    }
    s
}

#[test]
fn signatures_are_checked() {
    let a = signer(1);
    let b = signer(2);
    assert!(check_sig(&DIGEST, &a.sig, &a.public).is_ok());
    assert!(matches!(check_sig(&DIGEST, &a.sig, &b.public), Err(ScriptError::SignatureVerification)));
    assert!(matches!(
        check_sig(&[0; 32], &a.sig, &a.public),
        Err(ScriptError::SignatureVerification)
    ));
    assert!(matches!(check_sig(&DIGEST, &a.sig, &[1, 2]), Err(ScriptError::InvalidPublicKey)));
    assert!(matches!(check_sig(&DIGEST, &[1, 2, 3], &a.public), Err(ScriptError::InvalidSignature)));
}

#[test]
fn contracts_are_refunded_after_their_expiry() {
    let claimer = signer(1);
    let refunder = signer(2);
    let contract = build_htlc(&[5; 32], &hash160(&claimer.public), &hash160(&refunder.public), 1_000);
    let spend = pushes(&[&refunder.sig, &refunder.public], Some(0x00));
    let mut env = ScriptEnv {
        tx_hash: DIGEST,
        block_height: 1_001,
        tx_lock_time: 1_000,
        input_sequence: 0,
        ..ScriptEnv::default()
    };
    Engine::new(env).execute(&spend, &contract).unwrap();
    env.tx_lock_time = 999;
    assert!(matches!(
        Engine::new(env).execute(&spend, &contract),
        Err(ScriptError::HtlcLocktimeNotExpired)
    ));
    env.tx_lock_time = 1_000;
    env.block_height = 999;
    assert!(matches!(
        Engine::new(env).execute(&spend, &contract),
        Err(ScriptError::HtlcLocktimeNotExpired)
    ));
    env.block_height = 1_001;
    env.input_sequence = 0xffff_ffff;
    assert!(matches!(
        Engine::new(env).execute(&spend, &contract),
        Err(ScriptError::UnsatisfiedLocktime)
    ));
    env.input_sequence = 0;
    let stolen = pushes(&[&claimer.sig, &claimer.public], Some(0x00));
    assert!(Engine::new(env).execute(&stolen, &contract).is_err());
}

#[test]
fn redeem_scripts_are_run() {
    let redeem = vec![0x52, 0x87];
    let output = build_p2sh(&hash160(&redeem));
    let mut env = ScriptEnv::default();
    env.tx_hash = DIGEST;
    Engine::new(env).execute(&pushes(&[&[2], &redeem], None), &output).unwrap();
    assert!(Engine::new(env).execute(&pushes(&[&[3], &redeem], None), &output).is_err());
    assert!(Engine::new(env).execute(&pushes(&[&[2], &[0x51]], None), &output).is_err());
}

#[test]
fn long_and_deep_scripts_are_stopped() {
    let mut s = Script::new();
    for _ in 0..201 {
        s.push_opcode(0x61);
    }
    let mut e = Engine::new(ScriptEnv::default());
    assert!(matches!(e.run(&s), Err(ScriptError::StackOverflow)));
    let mut unknown = Script::new();
    unknown.push_opcode(0xfe);
    assert!(matches!(e.run(&unknown), Err(ScriptError::InvalidOpcode(0xfe))));
}

#[test]
fn errors_of_scripts_are_described() {
    assert_eq!(ScriptError::EmptyStack.message(), "Script execution failed: stack is empty");
    assert_eq!(ScriptError::InvalidOpcode(0xfe).message(), "Invalid opcode: 0xfe");
    assert_eq!(
        ScriptError::ScriptTooLarge(10_001).message(),
        "Script too large (10001 bytes, max 10000)"
    );
    assert_eq!(
        ScriptError::PushTooLarge(521).message(),
        "Stack item too large (521 bytes, max 520)"
    );
    assert!(ScriptError::MultisigKeyCount(3, 1).message().starts_with("Multisig: 3"));
    assert_eq!(ScriptError::Serialization("x".to_string()).message(), "Serialization error: x");
    assert_eq!(ScriptError::OpReturnUnspendable.message(), "OP_RETURN output is unspendable");
}

#[test]
fn integers_are_pushed_in_shortest_form() {
    let pushed = |n: u8| {
        let mut s = Script::new();
        s.push_int(n);
        s
    };
    assert_eq!(pushed(0).as_bytes(), &[0x00]);
    assert_eq!(pushed(16).as_bytes(), &[0x60]);
    assert_eq!(pushed(17).as_bytes(), &[0x01, 17]);
    assert_eq!(pushed(127).as_bytes(), &[0x01, 127]);
    assert_eq!(pushed(200).as_bytes(), &[0x02, 0xc8, 0x00]);
    for n in 17..=255u8 {
        let s = pushed(n);
        match s.iter().next() {
            Some(ScriptItem::PushData(d)) => assert_eq!(decode_script_num(d, 4).unwrap(), n as i64),
            other => panic!("unexpected {:?}", other),
        }
    }
    assert_eq!(Vec::from(pushed(200)), vec![0x02, 0xc8, 0x00]);
}

#[test]
fn numbers_are_refused_by_their_length_alone() {
    let n = i64::MAX;
    assert_eq!(int_to_bytes(n).len(), 8);
    assert_eq!(decode_script_num(&int_to_bytes(n), 100).unwrap(), n);
    assert_eq!(decode_script_num(&int_to_bytes(-n), usize::MAX).unwrap(), -n);
    assert!(matches!(decode_script_num(&[1; 12], 11), Err(ScriptError::InvalidScriptNumber)));
}
