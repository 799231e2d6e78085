use vstd::prelude::*;
use vstd::bytes::{
    lemma_auto_spec_u32_to_from_le_bytes, spec_u32_from_le_bytes, spec_u32_to_le_bytes,
    u32_from_le_bytes, u32_to_le_bytes,
};
use vstd::slice::{slice_subrange, slice_to_vec};
use vstd::utf8::{encode_utf8, encode_utf8_decode_utf8, encode_utf8_valid_utf8, valid_utf8};

use crate::agent::{Agent, AgentStoreInstruction, AgentView, InstructionView};
use crate::error::AgentStoreError;

verus! {

/// The variant tag that opens the wire encoding of an upsert instruction.
pub const UPSERT_TAG: u8 = 0;

/// Wire encoding of one text field: a four-byte little-endian length prefix,
/// then the field's UTF-8 bytes.
pub open spec fn spec_encode_field(s: Seq<char>) -> Seq<u8>
    recommends
        encode_utf8(s).len() <= u32::MAX,
{
    spec_u32_to_le_bytes(encode_utf8(s).len() as u32) + encode_utf8(s)
}

/// Length of one field's wire encoding.
pub open spec fn spec_field_len(s: Seq<char>) -> int {
    4 + encode_utf8(s).len() as int
}

/// A record is encodable exactly when each field's UTF-8 byte length fits
/// the format's four-byte length prefix.
pub open spec fn agent_encodable(a: AgentView) -> bool {
    &&& encode_utf8(a.agent_name).len() <= u32::MAX
    &&& encode_utf8(a.agent_id).len() <= u32::MAX
    &&& encode_utf8(a.agent_public_key).len() <= u32::MAX
    &&& encode_utf8(a.signing_authority).len() <= u32::MAX
    &&& encode_utf8(a.number_of_calls).len() <= u32::MAX
    &&& encode_utf8(a.avg_customer_rating).len() <= u32::MAX
}

/// Persisted layout of a record: the six length-prefixed fields back to
/// back, in declared field order, starting at offset 0.
pub open spec fn spec_encode_agent(a: AgentView) -> Seq<u8>
    recommends
        agent_encodable(a),
{
    spec_encode_field(a.agent_name) + spec_encode_field(a.agent_id) + spec_encode_field(
        a.agent_public_key,
    ) + spec_encode_field(a.signing_authority) + spec_encode_field(a.number_of_calls)
        + spec_encode_field(a.avg_customer_rating)
}

/// An instruction is encodable when its record is.
pub open spec fn instruction_encodable(i: InstructionView) -> bool {
    match i {
        InstructionView::Upsert(a) => agent_encodable(a),
    }
}

/// Wire encoding of an instruction: a one-byte variant tag, then the record.
pub open spec fn spec_encode_instruction(i: InstructionView) -> Seq<u8>
    recommends
        instruction_encodable(i),
{
    match i {
        InstructionView::Upsert(a) => seq![UPSERT_TAG] + spec_encode_agent(a),
    }
}

/// Appends the wire encoding of one field.
fn encode_field_into(out: &mut Vec<u8>, s: &str)
    requires
        encode_utf8(s@).len() <= u32::MAX,
    ensures
        final(out)@ == old(out)@ + spec_encode_field(s@),
{
    let bytes: &[u8] = s.as_bytes();
    let n: u32 = bytes.len() as u32;
    let prefix: Vec<u8> = u32_to_le_bytes(n);
    out.extend_from_slice(prefix.as_slice());
    out.extend_from_slice(bytes);
    proof {
        assert(final(out)@ =~= old(out)@ + spec_encode_field(s@));
    }
}

/// Serializes a record into its persisted layout.
pub fn encode_agent(agent: &Agent) -> (r: Vec<u8>)
    requires
        agent_encodable(agent@),
    ensures
        r@ == spec_encode_agent(agent@),
{
    let mut out: Vec<u8> = Vec::new();
    encode_field_into(&mut out, agent.agent_name.as_str());
    encode_field_into(&mut out, agent.agent_id.as_str());
    encode_field_into(&mut out, agent.agent_public_key.as_str());
    encode_field_into(&mut out, agent.signing_authority.as_str());
    encode_field_into(&mut out, agent.number_of_calls.as_str());
    encode_field_into(&mut out, agent.avg_customer_rating.as_str());
    proof {
        assert(out@ =~= spec_encode_agent(agent@));
    }
    out
}

/// Serializes an instruction: the variant tag, then the record.
pub fn encode_instruction(inst: &AgentStoreInstruction) -> (r: Vec<u8>)
    requires
        instruction_encodable(inst@),
    ensures
        r@ == spec_encode_instruction(inst@),
{
    match inst {
        AgentStoreInstruction::Upsert(agent) => {
            let mut out: Vec<u8> = Vec::new();
            out.push(UPSERT_TAG);
            let body = encode_agent(agent);
            out.extend_from_slice(body.as_slice());
            proof {
                assert(out@ =~= spec_encode_instruction(inst@));
            }
            out
        },
    }
}

/// True when a well-formed length-prefixed field holding the text `t` sits
/// at offset `pos` of `data`.
pub open spec fn field_parses_at(data: Seq<u8>, pos: int, t: Seq<char>) -> bool {
    &&& encode_utf8(t).len() <= u32::MAX
    &&& 0 <= pos
    &&& pos + spec_field_len(t) <= data.len()
    &&& data.subrange(pos, pos + spec_field_len(t)) == spec_encode_field(t)
}

/// Two well-formed fields that start at the same offset of the same buffer
/// hold the same text: the length prefix fixes the extent, and UTF-8
/// decoding recovers the characters.
pub proof fn lemma_field_at_unique(data: Seq<u8>, pos: int, s: Seq<char>, t: Seq<char>)
    requires
        field_parses_at(data, pos, s),
        field_parses_at(data, pos, t),
    ensures
        s == t,
{
    lemma_auto_spec_u32_to_from_le_bytes();
    let es = encode_utf8(s);
    let et = encode_utf8(t);
    let ps = spec_u32_to_le_bytes(es.len() as u32);
    let pt = spec_u32_to_le_bytes(et.len() as u32);
    assert forall|i: int| 0 <= i < 4 implies ps[i] == pt[i] by {
        assert(ps[i] == spec_encode_field(s)[i]);
        assert(spec_encode_field(s)[i] == data.subrange(pos, pos + spec_field_len(s))[i]);
        assert(pt[i] == spec_encode_field(t)[i]);
        assert(spec_encode_field(t)[i] == data.subrange(pos, pos + spec_field_len(t))[i]);
    };
    assert(ps =~= pt);
    assert(spec_u32_from_le_bytes(ps) == spec_u32_from_le_bytes(pt));
    assert(es.len() == et.len());
    assert forall|i: int| 0 <= i < es.len() implies es[i] == et[i] by {
        assert(es[i] == spec_encode_field(s)[4 + i]);
        assert(spec_encode_field(s)[4 + i] == data[pos + 4 + i]);
        assert(et[i] == spec_encode_field(t)[4 + i]);
        assert(spec_encode_field(t)[4 + i] == data[pos + 4 + i]);
    };
    assert(es =~= et);
    encode_utf8_decode_utf8(s);
    encode_utf8_decode_utf8(t);
}

/// Relies on `String::from_utf8`: it succeeds exactly on valid UTF-8 input,
/// and the returned string's UTF-8 bytes are exactly the input bytes.
#[verifier::external_body]
fn string_from_utf8(bytes: Vec<u8>) -> (r: Option<String>)
    ensures
        r matches Some(s) ==> encode_utf8(s@) == bytes@,
        valid_utf8(bytes@) ==> r is Some,
{
    String::from_utf8(bytes).ok()
}

/// One parsing step: reads the length-prefixed UTF-8 field at offset `pos`,
/// returning the text and the offset just past it. Fails exactly when no
/// well-formed field sits there.
fn read_field(data: &[u8], pos: usize) -> (r: Result<(String, usize), AgentStoreError>)
    requires
        pos <= data@.len(),
    ensures
        (match r {
            Ok(p) => {
                &&& field_parses_at(data@, pos as int, p.0@)
                &&& p.1 == pos + spec_field_len(p.0@)
            },
            Err(e) => e == AgentStoreError::MalformedInstruction,
        }),
        forall|t: Seq<char>| field_parses_at(data@, pos as int, t) ==> r is Ok,
{
    proof {
        lemma_auto_spec_u32_to_from_le_bytes();
    }
    let remaining = data.len() - pos;
    if remaining < 4 {
        assert(forall|t: Seq<char>| !field_parses_at(data@, pos as int, t));
        return Err(AgentStoreError::MalformedInstruction);
    }
    let len_slice: &[u8] = slice_subrange(data, pos, pos + 4);
    let n: u32 = u32_from_le_bytes(len_slice);
    let rest = remaining - 4;
    if n as usize > rest {
        proof {
            assert forall|t: Seq<char>| !field_parses_at(data@, pos as int, t) by {
                if field_parses_at(data@, pos as int, t) {
                    let et = encode_utf8(t);
                    let pt = spec_u32_to_le_bytes(et.len() as u32);
                    assert forall|i: int| 0 <= i < 4 implies pt[i] == len_slice@[i] by {
                        assert(pt[i] == spec_encode_field(t)[i]);
                        assert(spec_encode_field(t)[i] == data@[pos + i]);
                    };
                    assert(pt =~= len_slice@);
                    assert(n == et.len());
                }
            };
        }
        return Err(AgentStoreError::MalformedInstruction);
    }
    let end = pos + 4 + n as usize;
    let field_slice: &[u8] = slice_subrange(data, pos + 4, end);
    let field_vec: Vec<u8> = slice_to_vec(field_slice);
    let maybe = string_from_utf8(field_vec);
    match maybe {
        Some(s) => {
            proof {
                let es = encode_utf8(s@);
                assert(es == data@.subrange(pos + 4, end as int));
                assert(es.len() == n);
                assert forall|i: int| 0 <= i < spec_field_len(s@) implies spec_encode_field(s@)[i]
                    == data@.subrange(pos as int, pos + spec_field_len(s@))[i] by {
                    if i < 4 {
                        assert(spec_encode_field(s@)[i] == spec_u32_to_le_bytes(n)[i]);
                        assert(spec_u32_to_le_bytes(n) == spec_u32_to_le_bytes(
                            spec_u32_from_le_bytes(len_slice@),
                        ));
                        assert(spec_u32_to_le_bytes(n)[i] == len_slice@[i]);
                        assert(len_slice@[i] == data@[pos + i]);
                    } else {
                        assert(spec_encode_field(s@)[i] == es[i - 4]);
                        assert(es[i - 4] == data@[pos + i]);
                    }
                };
                assert(data@.subrange(pos as int, pos + spec_field_len(s@)) =~= spec_encode_field(
                    s@,
                ));
            }
            Ok((s, end))
        },
        None => {
            proof {
                assert forall|t: Seq<char>| !field_parses_at(data@, pos as int, t) by {
                    if field_parses_at(data@, pos as int, t) {
                        let et = encode_utf8(t);
                        let pt = spec_u32_to_le_bytes(et.len() as u32);
                        assert forall|i: int| 0 <= i < 4 implies pt[i] == len_slice@[i] by {
                            assert(pt[i] == spec_encode_field(t)[i]);
                            assert(spec_encode_field(t)[i] == data@[pos + i]);
                        };
                        assert(pt =~= len_slice@);
                        assert(n == et.len());
                        assert forall|i: int| 0 <= i < et.len() implies et[i] == field_vec@[i] by {
                            assert(et[i] == spec_encode_field(t)[4 + i]);
                            assert(spec_encode_field(t)[4 + i] == data@[pos + 4 + i]);
                        };
                        assert(et =~= field_vec@);
                        encode_utf8_valid_utf8(t);
                    }
                };
            }
            Err(AgentStoreError::MalformedInstruction)
        },
    }
}

/// Length of a record's persisted layout: six length-prefixed fields.
pub open spec fn agent_wire_len(a: AgentView) -> int {
    spec_field_len(a.agent_name) + spec_field_len(a.agent_id) + spec_field_len(
        a.agent_public_key,
    ) + spec_field_len(a.signing_authority) + spec_field_len(a.number_of_calls) + spec_field_len(
        a.avg_customer_rating,
    )
}

/// True when the six fields of `a` sit back to back at offset `pos` of
/// `data`, each as a well-formed length-prefixed field.
pub open spec fn agent_fields_at(data: Seq<u8>, pos: int, a: AgentView) -> bool {
    let p1 = pos + spec_field_len(a.agent_name);
    let p2 = p1 + spec_field_len(a.agent_id);
    let p3 = p2 + spec_field_len(a.agent_public_key);
    let p4 = p3 + spec_field_len(a.signing_authority);
    let p5 = p4 + spec_field_len(a.number_of_calls);
    &&& field_parses_at(data, pos, a.agent_name)
    &&& field_parses_at(data, p1, a.agent_id)
    &&& field_parses_at(data, p2, a.agent_public_key)
    &&& field_parses_at(data, p3, a.signing_authority)
    &&& field_parses_at(data, p4, a.number_of_calls)
    &&& field_parses_at(data, p5, a.avg_customer_rating)
}

/// Two records laid out at the same offset of the same buffer are equal
/// field for field.
pub proof fn lemma_fields_at_unique(data: Seq<u8>, pos: int, a: AgentView, b: AgentView)
    requires
        agent_fields_at(data, pos, a),
        agent_fields_at(data, pos, b),
    ensures
        a == b,
{
    lemma_field_at_unique(data, pos, a.agent_name, b.agent_name);
    let p1 = pos + spec_field_len(a.agent_name);
    lemma_field_at_unique(data, p1, a.agent_id, b.agent_id);
    let p2 = p1 + spec_field_len(a.agent_id);
    lemma_field_at_unique(data, p2, a.agent_public_key, b.agent_public_key);
    let p3 = p2 + spec_field_len(a.agent_public_key);
    lemma_field_at_unique(data, p3, a.signing_authority, b.signing_authority);
    let p4 = p3 + spec_field_len(a.signing_authority);
    lemma_field_at_unique(data, p4, a.number_of_calls, b.number_of_calls);
    let p5 = p4 + spec_field_len(a.number_of_calls);
    lemma_field_at_unique(data, p5, a.avg_customer_rating, b.avg_customer_rating);
    assert(a =~= b);
}

/// A record laid out field by field at `pos` forms exactly the record's
/// persisted layout there.
pub proof fn lemma_fields_at_compose(data: Seq<u8>, pos: int, a: AgentView)
    requires
        agent_fields_at(data, pos, a),
    ensures
        agent_encodable(a),
        spec_encode_agent(a).len() == agent_wire_len(a),
        data.subrange(pos, pos + agent_wire_len(a)) == spec_encode_agent(a),
{
    lemma_auto_spec_u32_to_from_le_bytes();
    let l1 = spec_field_len(a.agent_name);
    let l2 = spec_field_len(a.agent_id);
    let l3 = spec_field_len(a.agent_public_key);
    let l4 = spec_field_len(a.signing_authority);
    let l5 = spec_field_len(a.number_of_calls);
    let l6 = spec_field_len(a.avg_customer_rating);
    assert forall|i: int| 0 <= i < agent_wire_len(a) implies data.subrange(
        pos,
        pos + agent_wire_len(a),
    )[i] == spec_encode_agent(a)[i] by {
        if i < l1 {
            assert(spec_encode_agent(a)[i] == spec_encode_field(a.agent_name)[i]);
            assert(data.subrange(pos, pos + l1)[i] == spec_encode_field(a.agent_name)[i]);
        } else if i < l1 + l2 {
            assert(spec_encode_agent(a)[i] == spec_encode_field(a.agent_id)[i - l1]);
            assert(data.subrange(pos + l1, pos + l1 + l2)[i - l1] == spec_encode_field(
                a.agent_id,
            )[i - l1]);
        } else if i < l1 + l2 + l3 {
            assert(spec_encode_agent(a)[i] == spec_encode_field(a.agent_public_key)[i - l1 - l2]);
            assert(data.subrange(pos + l1 + l2, pos + l1 + l2 + l3)[i - l1 - l2]
                == spec_encode_field(a.agent_public_key)[i - l1 - l2]);
        } else if i < l1 + l2 + l3 + l4 {
            assert(spec_encode_agent(a)[i] == spec_encode_field(a.signing_authority)[i - l1 - l2
                - l3]);
            assert(data.subrange(pos + l1 + l2 + l3, pos + l1 + l2 + l3 + l4)[i - l1 - l2 - l3]
                == spec_encode_field(a.signing_authority)[i - l1 - l2 - l3]);
        } else if i < l1 + l2 + l3 + l4 + l5 {
            assert(spec_encode_agent(a)[i] == spec_encode_field(a.number_of_calls)[i - l1 - l2 - l3
                - l4]);
            assert(data.subrange(pos + l1 + l2 + l3 + l4, pos + l1 + l2 + l3 + l4 + l5)[i - l1 - l2
                - l3 - l4] == spec_encode_field(a.number_of_calls)[i - l1 - l2 - l3 - l4]);
        } else {
            assert(spec_encode_agent(a)[i] == spec_encode_field(a.avg_customer_rating)[i - l1 - l2
                - l3 - l4 - l5]);
            assert(data.subrange(pos + l1 + l2 + l3 + l4 + l5, pos + agent_wire_len(a))[i - l1 - l2
                - l3 - l4 - l5] == spec_encode_field(a.avg_customer_rating)[i - l1 - l2 - l3 - l4
                - l5]);
        }
    };
    assert(data.subrange(pos, pos + agent_wire_len(a)) =~= spec_encode_agent(a));
}

/// A record's persisted layout found at `pos` splits into the six fields,
/// each at its cumulative offset.
pub proof fn lemma_encode_decompose(data: Seq<u8>, pos: int, a: AgentView)
    requires
        agent_encodable(a),
        0 <= pos,
        pos + spec_encode_agent(a).len() <= data.len(),
        data.subrange(pos, pos + spec_encode_agent(a).len()) == spec_encode_agent(a),
    ensures
        agent_fields_at(data, pos, a),
        spec_encode_agent(a).len() == agent_wire_len(a),
{
    lemma_auto_spec_u32_to_from_le_bytes();
    let l1 = spec_field_len(a.agent_name);
    let l2 = spec_field_len(a.agent_id);
    let l3 = spec_field_len(a.agent_public_key);
    let l4 = spec_field_len(a.signing_authority);
    let l5 = spec_field_len(a.number_of_calls);
    let l6 = spec_field_len(a.avg_customer_rating);
    assert(spec_encode_agent(a).len() == agent_wire_len(a));
    assert forall|j: int| 0 <= j < l1 implies data.subrange(pos, pos + l1)[j] == spec_encode_field(
        a.agent_name,
    )[j] by {
        assert(data.subrange(pos, pos + agent_wire_len(a))[j] == spec_encode_agent(a)[j]);
    };
    assert(data.subrange(pos, pos + l1) =~= spec_encode_field(a.agent_name));
    assert forall|j: int| 0 <= j < l2 implies data.subrange(pos + l1, pos + l1 + l2)[j]
        == spec_encode_field(a.agent_id)[j] by {
        assert(data.subrange(pos, pos + agent_wire_len(a))[l1 + j] == spec_encode_agent(a)[l1 + j]);
        assert(spec_encode_agent(a)[l1 + j] == spec_encode_field(a.agent_id)[j]);
    };
    assert(data.subrange(pos + l1, pos + l1 + l2) =~= spec_encode_field(a.agent_id));
    assert forall|j: int| 0 <= j < l3 implies data.subrange(pos + l1 + l2, pos + l1 + l2 + l3)[j]
        == spec_encode_field(a.agent_public_key)[j] by {
        assert(data.subrange(pos, pos + agent_wire_len(a))[l1 + l2 + j] == spec_encode_agent(a)[l1
            + l2 + j]);
        assert(spec_encode_agent(a)[l1 + l2 + j] == spec_encode_field(a.agent_public_key)[j]);
    };
    assert(data.subrange(pos + l1 + l2, pos + l1 + l2 + l3) =~= spec_encode_field(
        a.agent_public_key,
    ));
    assert forall|j: int| 0 <= j < l4 implies data.subrange(
        pos + l1 + l2 + l3,
        pos + l1 + l2 + l3 + l4,
    )[j] == spec_encode_field(a.signing_authority)[j] by {
        assert(data.subrange(pos, pos + agent_wire_len(a))[l1 + l2 + l3 + j] == spec_encode_agent(
            a,
        )[l1 + l2 + l3 + j]);
        assert(spec_encode_agent(a)[l1 + l2 + l3 + j] == spec_encode_field(a.signing_authority)[j]);
    };
    assert(data.subrange(pos + l1 + l2 + l3, pos + l1 + l2 + l3 + l4) =~= spec_encode_field(
        a.signing_authority,
    ));
    assert forall|j: int| 0 <= j < l5 implies data.subrange(
        pos + l1 + l2 + l3 + l4,
        pos + l1 + l2 + l3 + l4 + l5,
    )[j] == spec_encode_field(a.number_of_calls)[j] by {
        assert(data.subrange(pos, pos + agent_wire_len(a))[l1 + l2 + l3 + l4 + j]
            == spec_encode_agent(a)[l1 + l2 + l3 + l4 + j]);
        assert(spec_encode_agent(a)[l1 + l2 + l3 + l4 + j] == spec_encode_field(
            a.number_of_calls,
        )[j]);
    };
    assert(data.subrange(pos + l1 + l2 + l3 + l4, pos + l1 + l2 + l3 + l4 + l5)
        =~= spec_encode_field(a.number_of_calls));
    assert forall|j: int| 0 <= j < l6 implies data.subrange(
        pos + l1 + l2 + l3 + l4 + l5,
        pos + agent_wire_len(a),
    )[j] == spec_encode_field(a.avg_customer_rating)[j] by {
        assert(data.subrange(pos, pos + agent_wire_len(a))[l1 + l2 + l3 + l4 + l5 + j]
            == spec_encode_agent(a)[l1 + l2 + l3 + l4 + l5 + j]);
        assert(spec_encode_agent(a)[l1 + l2 + l3 + l4 + l5 + j] == spec_encode_field(
            a.avg_customer_rating,
        )[j]);
    };
    assert(data.subrange(pos + l1 + l2 + l3 + l4 + l5, pos + agent_wire_len(a))
        =~= spec_encode_field(a.avg_customer_rating));
}

/// Reads the six fields of a record, back to back, starting at `pos`.
/// Fails exactly when no record is laid out there.
fn read_agent(data: &[u8], pos: usize) -> (r: Result<(Agent, usize), AgentStoreError>)
    requires
        pos <= data@.len(),
    ensures
        (match r {
            Ok(p) => {
                &&& agent_fields_at(data@, pos as int, p.0@)
                &&& p.1 == pos + agent_wire_len(p.0@)
            },
            Err(e) => e == AgentStoreError::MalformedInstruction,
        }),
        forall|a: AgentView| agent_fields_at(data@, pos as int, a) ==> r is Ok,
{
    let r1 = read_field(data, pos);
    let (f1, p1) = match r1 {
        Ok(p) => p,
        Err(e) => {
            proof {
                assert forall|a: AgentView| !agent_fields_at(data@, pos as int, a) by {
                    if agent_fields_at(data@, pos as int, a) {
                        assert(field_parses_at(data@, pos as int, a.agent_name));
                        assert(r1 is Ok);
                    }
                };
            }
            return Err(e);
        },
    };
    let r2 = read_field(data, p1);
    let (f2, p2) = match r2 {
        Ok(p) => p,
        Err(e) => {
            proof {
                assert forall|a: AgentView| !agent_fields_at(data@, pos as int, a) by {
                    if agent_fields_at(data@, pos as int, a) {
                        lemma_field_at_unique(data@, pos as int, a.agent_name, f1@);
                        assert(field_parses_at(data@, p1 as int, a.agent_id));
                        assert(r2 is Ok);
                    }
                };
            }
            return Err(e);
        },
    };
    let r3 = read_field(data, p2);
    let (f3, p3) = match r3 {
        Ok(p) => p,
        Err(e) => {
            proof {
                assert forall|a: AgentView| !agent_fields_at(data@, pos as int, a) by {
                    if agent_fields_at(data@, pos as int, a) {
                        lemma_field_at_unique(data@, pos as int, a.agent_name, f1@);
                        lemma_field_at_unique(data@, p1 as int, a.agent_id, f2@);
                        assert(field_parses_at(data@, p2 as int, a.agent_public_key));
                        assert(r3 is Ok);
                    }
                };
            }
            return Err(e);
        },
    };
    let r4 = read_field(data, p3);
    let (f4, p4) = match r4 {
        Ok(p) => p,
        Err(e) => {
            proof {
                assert forall|a: AgentView| !agent_fields_at(data@, pos as int, a) by {
                    if agent_fields_at(data@, pos as int, a) {
                        lemma_field_at_unique(data@, pos as int, a.agent_name, f1@);
                        lemma_field_at_unique(data@, p1 as int, a.agent_id, f2@);
                        lemma_field_at_unique(data@, p2 as int, a.agent_public_key, f3@);
                        assert(field_parses_at(data@, p3 as int, a.signing_authority));
                        assert(r4 is Ok);
                    }
                };
            }
            return Err(e);
        },
    };
    let r5 = read_field(data, p4);
    let (f5, p5) = match r5 {
        Ok(p) => p,
        Err(e) => {
            proof {
                assert forall|a: AgentView| !agent_fields_at(data@, pos as int, a) by {
                    if agent_fields_at(data@, pos as int, a) {
                        lemma_field_at_unique(data@, pos as int, a.agent_name, f1@);
                        lemma_field_at_unique(data@, p1 as int, a.agent_id, f2@);
                        lemma_field_at_unique(data@, p2 as int, a.agent_public_key, f3@);
                        lemma_field_at_unique(data@, p3 as int, a.signing_authority, f4@);
                        assert(field_parses_at(data@, p4 as int, a.number_of_calls));
                        assert(r5 is Ok);
                    }
                };
            }
            return Err(e);
        },
    };
    let r6 = read_field(data, p5);
    let (f6, p6) = match r6 {
        Ok(p) => p,
        Err(e) => {
            proof {
                assert forall|a: AgentView| !agent_fields_at(data@, pos as int, a) by {
                    if agent_fields_at(data@, pos as int, a) {
                        lemma_field_at_unique(data@, pos as int, a.agent_name, f1@);
                        lemma_field_at_unique(data@, p1 as int, a.agent_id, f2@);
                        lemma_field_at_unique(data@, p2 as int, a.agent_public_key, f3@);
                        lemma_field_at_unique(data@, p3 as int, a.signing_authority, f4@);
                        lemma_field_at_unique(data@, p4 as int, a.number_of_calls, f5@);
                        assert(field_parses_at(data@, p5 as int, a.avg_customer_rating));
                        assert(r6 is Ok);
                    }
                };
            }
            return Err(e);
        },
    };
    let agent = Agent {
        agent_name: f1,
        agent_id: f2,
        agent_public_key: f3,
        signing_authority: f4,
        number_of_calls: f5,
        avg_customer_rating: f6,
    };
    proof {
        assert(agent_fields_at(data@, pos as int, agent@));
    }
    Ok((agent, p6))
}

/// Decodes an instruction from its wire bytes: the variant tag, then the
/// six fields of the record, consuming the whole buffer. Succeeds exactly
/// on the encodings that [`encode_instruction`] produces; every malformed
/// buffer is rejected with [`AgentStoreError::MalformedInstruction`].
pub fn decode_instruction(data: &[u8]) -> (r: Result<AgentStoreInstruction, AgentStoreError>)
    ensures
        (match r {
            Ok(inst) => {
                &&& instruction_encodable(inst@)
                &&& data@ == spec_encode_instruction(inst@)
            },
            Err(e) => e == AgentStoreError::MalformedInstruction,
        }),
        forall|i: InstructionView|
            instruction_encodable(i) && data@ == spec_encode_instruction(i) ==> r is Ok,
{
    if data.len() == 0 {
        assert(forall|i: InstructionView|
            instruction_encodable(i) ==> #[trigger] spec_encode_instruction(i).len() >= 1);
        return Err(AgentStoreError::MalformedInstruction);
    }
    let tag = *vstd::slice::slice_index_get(data, 0);
    if tag != UPSERT_TAG {
        proof {
            assert forall|i: InstructionView|
                !(instruction_encodable(i) && data@ == spec_encode_instruction(i)) by {
                if instruction_encodable(i) && data@ == spec_encode_instruction(i) {
                    assert(data@[0] == UPSERT_TAG);
                }
            };
        }
        return Err(AgentStoreError::MalformedInstruction);
    }
    let ra = read_agent(data, 1);
    match ra {
        Err(e) => {
            proof {
                assert forall|i: InstructionView|
                    !(instruction_encodable(i) && data@ == spec_encode_instruction(i)) by {
                    if instruction_encodable(i) && data@ == spec_encode_instruction(i) {
                        let InstructionView::Upsert(a) = i;
                        let la = spec_encode_agent(a).len() as int;
                        assert forall|k: int| 0 <= k < la implies data@.subrange(1, 1 + la)[k]
                            == spec_encode_agent(a)[k] by {
                            assert(data@[1 + k] == spec_encode_agent(a)[k]);
                        };
                        assert(data@.subrange(1, 1 + la) =~= spec_encode_agent(a));
                        lemma_encode_decompose(data@, 1, a);
                        assert(ra is Ok);
                    }
                };
            }
            Err(e)
        },
        Ok((agent, end)) => {
            if end != data.len() {
                proof {
                    assert forall|i: InstructionView|
                        !(instruction_encodable(i) && data@ == spec_encode_instruction(i)) by {
                        if instruction_encodable(i) && data@ == spec_encode_instruction(i) {
                            let InstructionView::Upsert(a) = i;
                            let la = spec_encode_agent(a).len() as int;
                            assert forall|k: int| 0 <= k < la implies data@.subrange(1, 1 + la)[k]
                                == spec_encode_agent(a)[k] by {
                                assert(data@[1 + k] == spec_encode_agent(a)[k]);
                            };
                            assert(data@.subrange(1, 1 + la) =~= spec_encode_agent(a));
                            lemma_encode_decompose(data@, 1, a);
                            lemma_fields_at_unique(data@, 1, a, agent@);
                            assert(end == data@.len());
                        }
                    };
                }
                Err(AgentStoreError::MalformedInstruction)
            } else {
                proof {
                    lemma_fields_at_compose(data@, 1, agent@);
                    let la = spec_encode_agent(agent@).len() as int;
                    assert forall|k: int| 1 <= k < data@.len() implies data@[k]
                        == spec_encode_agent(agent@)[k - 1] by {
                        assert(data@.subrange(1, 1 + la)[k - 1] == spec_encode_agent(agent@)[k
                            - 1]);
                    };
                    assert(data@ =~= seq![UPSERT_TAG] + spec_encode_agent(agent@));
                }
                Ok(AgentStoreInstruction::Upsert(agent))
            }
        },
    }
}

/// Round-trip at the record level: the persisted layout determines the
/// record, so two records with the same encoding are equal field for field.
pub proof fn lemma_encode_agent_injective(a: AgentView, b: AgentView)
    requires
        agent_encodable(a),
        agent_encodable(b),
        spec_encode_agent(a) == spec_encode_agent(b),
    ensures
        a == b,
{
    let data = spec_encode_agent(a);
    assert(data.subrange(0, spec_encode_agent(a).len() as int) =~= spec_encode_agent(a));
    lemma_encode_decompose(data, 0, a);
    assert(data.subrange(0, spec_encode_agent(b).len() as int) =~= spec_encode_agent(b));
    lemma_encode_decompose(data, 0, b);
    lemma_fields_at_unique(data, 0, a, b);
}

/// Round-trip at the instruction level: the wire bytes determine the
/// instruction and the record it carries.
pub proof fn lemma_encode_instruction_injective(i: InstructionView, j: InstructionView)
    requires
        instruction_encodable(i),
        instruction_encodable(j),
        spec_encode_instruction(i) == spec_encode_instruction(j),
    ensures
        i == j,
{
    let InstructionView::Upsert(a) = i;
    let InstructionView::Upsert(b) = j;
    assert(spec_encode_instruction(i) == seq![UPSERT_TAG] + spec_encode_agent(a));
    assert(spec_encode_instruction(j) == seq![UPSERT_TAG] + spec_encode_agent(b));
    assert(spec_encode_agent(a).len() == spec_encode_agent(b).len());
    assert forall|k: int| 0 <= k < spec_encode_agent(a).len() implies spec_encode_agent(a)[k]
        == spec_encode_agent(b)[k] by {
        assert(spec_encode_instruction(i)[k + 1] == spec_encode_agent(a)[k]);
        assert(spec_encode_instruction(j)[k + 1] == spec_encode_agent(b)[k]);
    };
    assert(spec_encode_agent(a) =~= spec_encode_agent(b));
    lemma_encode_agent_injective(a, b);
}

/// A proper prefix of an instruction's encoding is never itself the
/// encoding of an instruction: a buffer truncated at any byte boundary
/// before the final field's full content decodes to nothing.
pub proof fn lemma_truncated_encoding_invalid(i: InstructionView, j: InstructionView, n: int)
    requires
        instruction_encodable(i),
        instruction_encodable(j),
        0 <= n < spec_encode_instruction(i).len(),
    ensures
        spec_encode_instruction(i).take(n) != spec_encode_instruction(j),
{
    let InstructionView::Upsert(a) = i;
    let InstructionView::Upsert(b) = j;
    let data = spec_encode_instruction(i);
    let x = spec_encode_instruction(j);
    if data.take(n) == x {
        assert(data == seq![UPSERT_TAG] + spec_encode_agent(a));
        assert(x == seq![UPSERT_TAG] + spec_encode_agent(b));
        let lb = spec_encode_agent(b).len() as int;
        assert(data.take(n).len() == n);
        assert(1 + lb == n);
        assert forall|k: int| 0 <= k < lb implies data.subrange(1, n)[k] == spec_encode_agent(
            b,
        )[k] by {
            assert(x[k + 1] == spec_encode_agent(b)[k]);
            assert(data.take(n)[k + 1] == data[k + 1]);
        };
        assert(data.subrange(1, n) =~= spec_encode_agent(b));
        lemma_encode_decompose(data, 1, b);
        let la = spec_encode_agent(a).len() as int;
        assert forall|k: int| 0 <= k < la implies data.subrange(1, 1 + la)[k] == spec_encode_agent(
            a,
        )[k] by {
            assert(data[1 + k] == spec_encode_agent(a)[k]);
        };
        assert(data.subrange(1, 1 + la) =~= spec_encode_agent(a));
        lemma_encode_decompose(data, 1, a);
        lemma_fields_at_unique(data, 1, a, b);
        assert(false);
    }
}

} // verus!
