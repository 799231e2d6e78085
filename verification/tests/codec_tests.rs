use agent_store::agent::{Agent, AgentStoreInstruction};
use agent_store::codec::{decode_instruction, encode_agent, encode_instruction};
use agent_store::error::AgentStoreError;

fn sample_agent() -> Agent {
    Agent {
        agent_name: "Bot1".to_string(),
        agent_id: "A-1".to_string(),
        agent_public_key: "pk123".to_string(),
        signing_authority: "auth123".to_string(),
        number_of_calls: "0".to_string(),
        avg_customer_rating: "0.0".to_string(),
    }
}

fn field_bytes(s: &str) -> Vec<u8> {
    let mut out = Vec::new();
    out.extend_from_slice(&(s.len() as u32).to_le_bytes());
    out.extend_from_slice(s.as_bytes());
    out
}

fn expected_record_bytes(a: &Agent) -> Vec<u8> {
    let mut out = Vec::new();
    out.extend_from_slice(&field_bytes(&a.agent_name));
    out.extend_from_slice(&field_bytes(&a.agent_id));
    out.extend_from_slice(&field_bytes(&a.agent_public_key));
    out.extend_from_slice(&field_bytes(&a.signing_authority));
    out.extend_from_slice(&field_bytes(&a.number_of_calls));
    out.extend_from_slice(&field_bytes(&a.avg_customer_rating));
    out
}

#[test]
fn encode_agent_exact_bytes() {
    let a = sample_agent();
    assert_eq!(encode_agent(&a), expected_record_bytes(&a));
}

#[test]
fn encode_instruction_prepends_tag() {
    let a = sample_agent();
    let mut expected = vec![0u8];
    expected.extend_from_slice(&expected_record_bytes(&a));
    assert_eq!(encode_instruction(&AgentStoreInstruction::Upsert(a)), expected);
}

#[test]
fn round_trip_simple() {
    let a = sample_agent();
    let bytes = encode_instruction(&AgentStoreInstruction::Upsert(a.clone()));
    let decoded = decode_instruction(&bytes).expect("well-formed encoding must decode");
    let AgentStoreInstruction::Upsert(b) = decoded;
    assert_eq!(a, b);
}

#[test]
fn round_trip_unicode_and_empty_fields() {
    let a = Agent {
        agent_name: "ágent nämé".to_string(),
        agent_id: "".to_string(),
        agent_public_key: "キー".to_string(),
        signing_authority: "auth\u{1F916}".to_string(),
        number_of_calls: "12345".to_string(),
        avg_customer_rating: "4.75".to_string(),
    };
    let bytes = encode_instruction(&AgentStoreInstruction::Upsert(a.clone()));
    let decoded = decode_instruction(&bytes).expect("well-formed encoding must decode");
    let AgentStoreInstruction::Upsert(b) = decoded;
    assert_eq!(a, b);
}

#[test]
fn decode_rejects_every_truncation() {
    let a = sample_agent();
    let bytes = encode_instruction(&AgentStoreInstruction::Upsert(a));
    for n in 0..bytes.len() {
        let r = decode_instruction(&bytes[..n]);
        assert_eq!(r, Err(AgentStoreError::MalformedInstruction), "prefix of {} bytes", n);
    }
}

#[test]
fn decode_rejects_wrong_tag() {
    let a = sample_agent();
    let mut bytes = encode_instruction(&AgentStoreInstruction::Upsert(a));
    bytes[0] = 1;
    assert_eq!(decode_instruction(&bytes), Err(AgentStoreError::MalformedInstruction));
}

#[test]
fn decode_rejects_trailing_bytes() {
    let a = sample_agent();
    let mut bytes = encode_instruction(&AgentStoreInstruction::Upsert(a));
    bytes.push(0);
    assert_eq!(decode_instruction(&bytes), Err(AgentStoreError::MalformedInstruction));
}

#[test]
fn decode_rejects_length_prefix_overrun() {
    // tag, then a first field claiming 200 bytes with only 2 present
    let mut bytes = vec![0u8];
    bytes.extend_from_slice(&200u32.to_le_bytes());
    bytes.extend_from_slice(b"ab");
    assert_eq!(decode_instruction(&bytes), Err(AgentStoreError::MalformedInstruction));
}

#[test]
fn decode_rejects_invalid_utf8_field() {
    // tag, one field of a single invalid byte, then five empty fields
    let mut bytes = vec![0u8];
    bytes.extend_from_slice(&1u32.to_le_bytes());
    bytes.push(0xFF);
    for _ in 0..5 {
        bytes.extend_from_slice(&0u32.to_le_bytes());
    }
    assert_eq!(decode_instruction(&bytes), Err(AgentStoreError::MalformedInstruction));
}

#[test]
fn decode_rejects_empty_buffer() {
    assert_eq!(decode_instruction(&[]), Err(AgentStoreError::MalformedInstruction));
}

#[test]
fn decode_accepts_all_empty_fields() {
    let a = Agent {
        agent_name: String::new(),
        agent_id: String::new(),
        agent_public_key: String::new(),
        signing_authority: String::new(),
        number_of_calls: String::new(),
        avg_customer_rating: String::new(),
    };
    let bytes = encode_instruction(&AgentStoreInstruction::Upsert(a.clone()));
    assert_eq!(bytes.len(), 25);
    let decoded = decode_instruction(&bytes).expect("well-formed encoding must decode");
    let AgentStoreInstruction::Upsert(b) = decoded;
    assert_eq!(a, b);
}
