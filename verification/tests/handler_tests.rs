use agent_store::account::{Account, Pubkey};
use agent_store::agent::{Agent, AgentStoreInstruction};
use agent_store::codec::{encode_agent, encode_instruction};
use agent_store::error::AgentStoreError;
use agent_store::handler::{process_instruction, process_upsert_agent};

fn program_id() -> Pubkey {
    Pubkey { bytes: vec![7u8; 32] }
}

fn other_id() -> Pubkey {
    Pubkey { bytes: vec![9u8; 32] }
}

fn agent(name: &str, id: &str) -> Agent {
    Agent {
        agent_name: name.to_string(),
        agent_id: id.to_string(),
        agent_public_key: "pk123".to_string(),
        signing_authority: "auth123".to_string(),
        number_of_calls: "0".to_string(),
        avg_customer_rating: "0.0".to_string(),
    }
}

fn accounts_with_capacity(capacity: usize) -> Vec<Account> {
    vec![
        Account { owner: other_id(), is_signer: true, data: Vec::new() },
        Account { owner: program_id(), is_signer: false, data: vec![0u8; capacity] },
    ]
}

#[test]
fn upsert_success_writes_exact_encoding() {
    let a = agent("Bot1", "A-1");
    let expected = encode_agent(&a);
    let data = encode_instruction(&AgentStoreInstruction::Upsert(a));
    let mut accounts = accounts_with_capacity(256);
    let r = process_instruction(&program_id(), &mut accounts, &data);
    assert_eq!(r, Ok(()));
    assert_eq!(&accounts[1].data[..expected.len()], &expected[..]);
    // bytes beyond the encoding are left untouched
    assert!(accounts[1].data[expected.len()..].iter().all(|&b| b == 0));
    assert_eq!(accounts[1].data.len(), 256);
    // the funding account is never written
    assert!(accounts[0].data.is_empty());
}

#[test]
fn second_upsert_replaces_first() {
    let first = agent("A long-winded agent name", "ID-0001");
    let second = agent("B", "2");
    let mut accounts = accounts_with_capacity(128);
    let pid = program_id();
    let d1 = encode_instruction(&AgentStoreInstruction::Upsert(first));
    let d2 = encode_instruction(&AgentStoreInstruction::Upsert(second.clone()));
    assert_eq!(process_instruction(&pid, &mut accounts, &d1), Ok(()));
    assert_eq!(process_instruction(&pid, &mut accounts, &d2), Ok(()));
    let expected = encode_agent(&second);
    assert_eq!(&accounts[1].data[..expected.len()], &expected[..]);
    assert_eq!(accounts[1].data.len(), 128);
}

#[test]
fn missing_signature_fails_without_mutation() {
    let a = agent("Bot1", "A-1");
    let data = encode_instruction(&AgentStoreInstruction::Upsert(a));
    let mut accounts = accounts_with_capacity(256);
    accounts[0].is_signer = false;
    let before = accounts[1].data.clone();
    let r = process_instruction(&program_id(), &mut accounts, &data);
    assert_eq!(r, Err(AgentStoreError::MissingSignature));
    assert_eq!(accounts[1].data, before);
}

#[test]
fn incorrect_owner_fails_without_mutation() {
    let a = agent("Bot1", "A-1");
    let data = encode_instruction(&AgentStoreInstruction::Upsert(a));
    let mut accounts = accounts_with_capacity(256);
    accounts[1].owner = other_id();
    let before = accounts[1].data.clone();
    let r = process_instruction(&program_id(), &mut accounts, &data);
    assert_eq!(r, Err(AgentStoreError::IncorrectOwner));
    assert_eq!(accounts[1].data, before);
}

#[test]
fn owner_is_checked_before_signature() {
    let a = agent("Bot1", "A-1");
    let data = encode_instruction(&AgentStoreInstruction::Upsert(a));
    let mut accounts = accounts_with_capacity(256);
    accounts[0].is_signer = false;
    accounts[1].owner = other_id();
    let r = process_instruction(&program_id(), &mut accounts, &data);
    assert_eq!(r, Err(AgentStoreError::IncorrectOwner));
}

#[test]
fn insufficient_capacity_fails_without_mutation() {
    let a = agent("Bot1", "A-1");
    let needed = encode_agent(&a).len();
    let data = encode_instruction(&AgentStoreInstruction::Upsert(a));
    let mut accounts = accounts_with_capacity(needed - 1);
    let before = accounts[1].data.clone();
    let r = process_instruction(&program_id(), &mut accounts, &data);
    assert_eq!(r, Err(AgentStoreError::InsufficientStorageCapacity));
    assert_eq!(accounts[1].data, before);
}

#[test]
fn exact_capacity_succeeds() {
    let a = agent("Bot1", "A-1");
    let expected = encode_agent(&a);
    let data = encode_instruction(&AgentStoreInstruction::Upsert(a));
    let mut accounts = accounts_with_capacity(expected.len());
    let r = process_instruction(&program_id(), &mut accounts, &data);
    assert_eq!(r, Ok(()));
    assert_eq!(accounts[1].data, expected);
}

#[test]
fn missing_account_fails() {
    let a = agent("Bot1", "A-1");
    let data = encode_instruction(&AgentStoreInstruction::Upsert(a));
    let mut accounts = vec![Account { owner: other_id(), is_signer: true, data: Vec::new() }];
    let r = process_instruction(&program_id(), &mut accounts, &data);
    assert_eq!(r, Err(AgentStoreError::MissingAccount));
}

#[test]
fn no_accounts_at_all_fails() {
    let a = agent("Bot1", "A-1");
    let data = encode_instruction(&AgentStoreInstruction::Upsert(a));
    let mut accounts: Vec<Account> = Vec::new();
    let r = process_instruction(&program_id(), &mut accounts, &data);
    assert_eq!(r, Err(AgentStoreError::MissingAccount));
}

#[test]
fn malformed_instruction_touches_no_account() {
    let mut accounts = accounts_with_capacity(64);
    let before = accounts[1].data.clone();
    let r = process_instruction(&program_id(), &mut accounts, &[0u8, 1, 2]);
    assert_eq!(r, Err(AgentStoreError::MalformedInstruction));
    assert_eq!(accounts[1].data, before);
}

#[test]
fn upsert_handler_called_directly() {
    let a = agent("Bot1", "A-1");
    let expected = encode_agent(&a);
    let mut accounts = accounts_with_capacity(64);
    let r = process_upsert_agent(&program_id(), &mut accounts, a);
    assert_eq!(r, Ok(()));
    assert_eq!(&accounts[1].data[..expected.len()], &expected[..]);
}
