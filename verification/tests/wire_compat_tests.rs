//! The persisted layout must match what borsh produces for the same record:
//! six length-prefixed UTF-8 strings in declared order, and for the
//! instruction a one-byte variant tag in front.

use agent_store::agent::{Agent, AgentStoreInstruction};
use agent_store::codec::{decode_instruction, encode_agent, encode_instruction};

type FieldTuple = (String, String, String, String, String, String);

fn sample() -> Agent {
    Agent {
        agent_name: "Bot1".to_string(),
        agent_id: "A-1".to_string(),
        agent_public_key: "pk123".to_string(),
        signing_authority: "auth123".to_string(),
        number_of_calls: "0".to_string(),
        avg_customer_rating: "0.0".to_string(),
    }
}

fn as_tuple(a: &Agent) -> FieldTuple {
    (
        a.agent_name.clone(),
        a.agent_id.clone(),
        a.agent_public_key.clone(),
        a.signing_authority.clone(),
        a.number_of_calls.clone(),
        a.avg_customer_rating.clone(),
    )
}

#[test]
fn record_encoding_matches_borsh() {
    let a = sample();
    let ours = encode_agent(&a);
    let reference = borsh::to_vec(&as_tuple(&a)).expect("borsh serialization");
    assert_eq!(ours, reference);
}

#[test]
fn instruction_encoding_matches_borsh_enum_layout() {
    let a = sample();
    let ours = encode_instruction(&AgentStoreInstruction::Upsert(a.clone()));
    let mut reference = vec![0u8];
    reference.extend_from_slice(&borsh::to_vec(&as_tuple(&a)).expect("borsh serialization"));
    assert_eq!(ours, reference);
}

#[test]
fn borsh_decodes_our_record_encoding() {
    let a = sample();
    let ours = encode_agent(&a);
    let decoded: FieldTuple = borsh::from_slice(&ours).expect("borsh deserialization");
    assert_eq!(decoded, as_tuple(&a));
}

#[test]
fn we_decode_borsh_built_instruction() {
    let a = Agent {
        agent_name: "unicode ✓".to_string(),
        agent_id: "id-42".to_string(),
        agent_public_key: "pk".to_string(),
        signing_authority: "sa".to_string(),
        number_of_calls: "17".to_string(),
        avg_customer_rating: "3.5".to_string(),
    };
    let mut bytes = vec![0u8];
    bytes.extend_from_slice(&borsh::to_vec(&as_tuple(&a)).expect("borsh serialization"));
    let decoded = decode_instruction(&bytes).expect("borsh-built buffer must decode");
    let AgentStoreInstruction::Upsert(b) = decoded;
    assert_eq!(a, b);
}
