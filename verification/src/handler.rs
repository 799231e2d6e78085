use vstd::prelude::*;

use crate::account::{pubkey_eq, Account, AccountView, Pubkey};
use crate::agent::{Agent, AgentStoreInstruction, AgentView, InstructionView};
use crate::codec::{
    agent_encodable, decode_instruction, encode_agent, lemma_encode_instruction_injective,
    spec_encode_agent, spec_encode_instruction,
};
use crate::error::AgentStoreError;

verus! {

/// Validation outcome of one upsert attempt against the supplied accounts:
/// arity, then ownership of the target account, then the funder's
/// signature, then capacity — each check a precondition for the next.
pub open spec fn upsert_check(pid: Seq<u8>, accounts: Seq<AccountView>, a: AgentView) -> Result<
    (),
    AgentStoreError,
>
    recommends
        agent_encodable(a),
{
    if accounts.len() < 2 {
        Err(AgentStoreError::MissingAccount)
    } else if accounts[1].owner != pid {
        Err(AgentStoreError::IncorrectOwner)
    } else if !accounts[0].is_signer {
        Err(AgentStoreError::MissingSignature)
    } else if spec_encode_agent(a).len() > accounts[1].data.len() {
        Err(AgentStoreError::InsufficientStorageCapacity)
    } else {
        Ok(())
    }
}

/// The account list after a successful upsert: the record's encoding
/// overwrites the front of the target account's buffer, bytes beyond it are
/// left untouched, and no other account changes.
pub open spec fn upsert_write(accounts: Seq<AccountView>, a: AgentView) -> Seq<AccountView>
    recommends
        accounts.len() >= 2,
        agent_encodable(a),
        spec_encode_agent(a).len() <= accounts[1].data.len(),
{
    let t = accounts[1];
    accounts.update(
        1,
        AccountView {
            owner: t.owner,
            is_signer: t.is_signer,
            data: spec_encode_agent(a) + t.data.skip(spec_encode_agent(a).len() as int),
        },
    )
}

/// Copies `src` over the front of `dst`, leaving the tail untouched.
fn write_prefix(dst: &mut Vec<u8>, src: &Vec<u8>)
    requires
        src@.len() <= old(dst)@.len(),
    ensures
        final(dst)@ == src@ + old(dst)@.skip(src@.len() as int),
{
    let ghost dst0 = dst@;
    let n = src.len();
    let mut i: usize = 0;
    while i < n
        invariant
            n == src@.len() <= dst@.len(),
            dst@.len() == dst0.len(),
            0 <= i <= n,
            forall|j: int| 0 <= j < i ==> dst@[j] == src@[j],
            forall|j: int| i <= j < dst@.len() ==> dst@[j] == dst0[j],
        decreases n - i,
    {
        let b = src[i];
        dst[i] = b;
        i = i + 1;
    }
    proof {
        assert(dst@ =~= src@ + dst0.skip(src@.len() as int));
    }
}

/// Validates the supplied accounts and writes the record's persisted
/// encoding into the target account's buffer, overwriting any prior
/// contents at those offsets. Expected account order: 0 the
/// funding/authority account, which must have signed; 1 the target storage
/// account, which must be owned by this program and have enough allocated
/// capacity. On any failure no account is changed: the write is
/// all-or-nothing.
pub fn process_upsert_agent(program_id: &Pubkey, accounts: &mut Vec<Account>, agent: Agent) -> (r:
    Result<(), AgentStoreError>)
    requires
        agent_encodable(agent@),
    ensures
        r == upsert_check(program_id@, old(accounts).deep_view(), agent@),
        r is Ok ==> final(accounts).deep_view() == upsert_write(
            old(accounts).deep_view(),
            agent@,
        ),
        r is Err ==> final(accounts).deep_view() == old(accounts).deep_view(),
{
    proof {
        assert(accounts.deep_view().len() == accounts@.len());
    }
    if accounts.len() < 2 {
        return Err(AgentStoreError::MissingAccount);
    }
    proof {
        assert(accounts.deep_view()[0] == accounts@[0]@);
        assert(accounts.deep_view()[1] == accounts@[1]@);
    }
    if !pubkey_eq(&accounts[1].owner, program_id) {
        return Err(AgentStoreError::IncorrectOwner);
    }
    if !accounts[0].is_signer {
        return Err(AgentStoreError::MissingSignature);
    }
    let encoded = encode_agent(&agent);
    if encoded.len() > accounts[1].data.len() {
        return Err(AgentStoreError::InsufficientStorageCapacity);
    }
    let mut target = accounts.remove(1);
    write_prefix(&mut target.data, &encoded);
    accounts.insert(1, target);
    proof {
        let old_deep = old(accounts).deep_view();
        assert forall|k: int| 0 <= k < accounts@.len() implies accounts.deep_view()[k]
            == upsert_write(old_deep, agent@)[k] by {
            assert(accounts.deep_view()[k] == accounts@[k]@);
            assert(old_deep[k] == old(accounts)@[k]@);
        };
        assert(accounts.deep_view() =~= upsert_write(old_deep, agent@));
    }
    Ok(())
}

/// Entry point of the program logic: decodes the instruction bytes, then
/// dispatches. A buffer that is not exactly the encoding of some
/// instruction fails with `MalformedInstruction` before any account is
/// inspected; otherwise the upsert handler decides, and only a successful
/// upsert mutates the target account.
pub fn process_instruction(
    program_id: &Pubkey,
    accounts: &mut Vec<Account>,
    instruction_data: &[u8],
) -> (r: Result<(), AgentStoreError>)
    ensures
        forall|a: AgentView|
            agent_encodable(a) && instruction_data@ == #[trigger] spec_encode_instruction(
                InstructionView::Upsert(a),
            ) ==> {
                &&& r == upsert_check(program_id@, old(accounts).deep_view(), a)
                &&& (r is Ok ==> final(accounts).deep_view() == upsert_write(
                    old(accounts).deep_view(),
                    a,
                ))
            },
        !(exists|a: AgentView|
            agent_encodable(a) && instruction_data@ == #[trigger] spec_encode_instruction(
                InstructionView::Upsert(a),
            )) ==> r == Err::<(), AgentStoreError>(AgentStoreError::MalformedInstruction),
        r is Err ==> final(accounts).deep_view() == old(accounts).deep_view(),
{
    let decoded = decode_instruction(instruction_data);
    match decoded {
        Err(e) => Err(e),
        Ok(inst) => {
            match inst {
                AgentStoreInstruction::Upsert(agent) => {
                    let ghost inst_view = InstructionView::Upsert(agent@);
                    let result = process_upsert_agent(program_id, accounts, agent);
                    proof {
                        assert forall|a: AgentView|
                            agent_encodable(a) && instruction_data@ == spec_encode_instruction(
                                InstructionView::Upsert(a),
                            ) implies InstructionView::Upsert(a) == inst_view by {
                            lemma_encode_instruction_injective(
                                InstructionView::Upsert(a),
                                inst_view,
                            );
                        };
                    }
                    result
                },
            }
        },
    }
}

/// Ownership gate: when the target account's owner differs from the
/// program identity, the upsert fails with `IncorrectOwner`, whatever the
/// other accounts and the record hold.
pub proof fn lemma_owner_gate(pid: Seq<u8>, accounts: Seq<AccountView>, a: AgentView)
    requires
        accounts.len() >= 2,
        accounts[1].owner != pid,
    ensures
        upsert_check(pid, accounts, a) == Err::<(), AgentStoreError>(AgentStoreError::IncorrectOwner),
{
}

/// Authorization gate: when the funding account did not sign, an upsert
/// whose target passes the ownership check fails with `MissingSignature`.
pub proof fn lemma_signature_gate(pid: Seq<u8>, accounts: Seq<AccountView>, a: AgentView)
    requires
        accounts.len() >= 2,
        accounts[1].owner == pid,
        !accounts[0].is_signer,
    ensures
        upsert_check(pid, accounts, a) == Err::<(), AgentStoreError>(AgentStoreError::MissingSignature),
{
}

/// Capacity gate: when the encoded record is longer than the target
/// account's allocated data, an otherwise valid upsert fails with
/// `InsufficientStorageCapacity`.
pub proof fn lemma_capacity_gate(pid: Seq<u8>, accounts: Seq<AccountView>, a: AgentView)
    requires
        accounts.len() >= 2,
        accounts[1].owner == pid,
        accounts[0].is_signer,
        spec_encode_agent(a).len() > accounts[1].data.len(),
    ensures
        upsert_check(pid, accounts, a) == Err::<(), AgentStoreError>(AgentStoreError::InsufficientStorageCapacity),
{
}

/// Two successive successful upserts to the same account leave it holding
/// exactly the second record's encoding at offset 0, and the buffer's
/// allocated length never changes.
pub proof fn lemma_second_upsert_wins(
    pid: Seq<u8>,
    accounts: Seq<AccountView>,
    a1: AgentView,
    a2: AgentView,
)
    requires
        agent_encodable(a1),
        agent_encodable(a2),
        accounts.len() >= 2,
        upsert_check(pid, accounts, a1) is Ok,
        upsert_check(pid, upsert_write(accounts, a1), a2) is Ok,
    ensures
        upsert_write(upsert_write(accounts, a1), a2)[1].data.len() == accounts[1].data.len(),
        upsert_write(upsert_write(accounts, a1), a2)[1].data.take(
            spec_encode_agent(a2).len() as int,
        ) == spec_encode_agent(a2),
{
    let e1 = spec_encode_agent(a1);
    let e2 = spec_encode_agent(a2);
    let s1 = upsert_write(accounts, a1);
    let s2 = upsert_write(s1, a2);
    assert(s1[1].data.len() == accounts[1].data.len());
    assert(s2[1].data.len() == accounts[1].data.len());
    assert(s2[1].data.take(e2.len() as int) =~= e2);
}

} // verus!
