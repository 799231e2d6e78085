use vstd::prelude::*;

verus! {

/// Mathematical view of an [`Agent`] record: each text field as its
/// character sequence.
#[verifier::ext_equal]
pub struct AgentView {
    pub agent_name: Seq<char>,
    pub agent_id: Seq<char>,
    pub agent_public_key: Seq<char>,
    pub signing_authority: Seq<char>,
    pub number_of_calls: Seq<char>,
    pub avg_customer_rating: Seq<char>,
}

/// An agent record: six variable-length text fields, stored verbatim.
///
/// The public key and signing authority are opaque identifiers; nothing here
/// validates them cryptographically. The call count and rating are kept as
/// text for wire compatibility; no arithmetic is ever performed on them.
#[derive(Debug, Clone, PartialEq, Eq)]
pub struct Agent {
    pub agent_name: String,
    pub agent_id: String,
    pub agent_public_key: String,
    pub signing_authority: String,
    pub number_of_calls: String,
    pub avg_customer_rating: String,
}

impl View for Agent {
    type V = AgentView;

    open spec fn view(&self) -> AgentView {
        AgentView {
            agent_name: self.agent_name@,
            agent_id: self.agent_id@,
            agent_public_key: self.agent_public_key@,
            signing_authority: self.signing_authority@,
            number_of_calls: self.number_of_calls@,
            avg_customer_rating: self.avg_customer_rating@,
        }
    }
}

/// Mathematical view of an [`AgentStoreInstruction`].
pub enum InstructionView {
    Upsert(AgentView),
}

/// The instructions this program can process.
#[derive(Debug, Clone, PartialEq, Eq)]
pub enum AgentStoreInstruction {
    /// Create or replace the record held by the target storage account.
    /// Expected accounts: 0 the signing funder, 1 the writable agent account.
    Upsert(Agent),
}

impl View for AgentStoreInstruction {
    type V = InstructionView;

    open spec fn view(&self) -> InstructionView {
        match self {
            AgentStoreInstruction::Upsert(a) => InstructionView::Upsert(a@),
        }
    }
}

} // verus!
