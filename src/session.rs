//! One execution of the engine: validate both operands, compute, and
//! commit the canonical encoding of the result to a journal, or halt with
//! a fault and no journal.
use crate::bounded::{capacity, BoundedUint};
use crate::encoding::{be_val, canonical_bytes, lemma_canonical_round_trip};
use crate::modpow::{lemma_unit_base, modpow_65537, modpow_spec};
use vstd::prelude::*;

verus! {

/// Which input an error refers to.
#[derive(Clone, Copy, Debug, PartialEq, Eq, Structural)]
pub enum Operand {
    Base,
    Modulus,
}

/// Why a session halted without a result.
#[derive(Clone, Copy, Debug, PartialEq, Eq, Structural)]
pub enum SessionError {
    /// The operand needs more than `MAX_BITS` bits.
    InputTooLarge(Operand),
    /// The modulus is zero, so no residue exists.
    ZeroModulus,
}

/// How a session halted.
#[derive(Clone, Copy, Debug, PartialEq, Eq, Structural)]
pub enum ExitCode {
    /// Normal halt; zero means success.
    Halted(u32),
    /// Halted on a validation fault.
    Fault,
}

/// The committed output of a successful session.
#[derive(Clone, Debug, PartialEq, Eq)]
pub struct Journal {
    bytes: Vec<u8>,
}

impl View for Journal {
    type V = Seq<u8>;

    closed spec fn view(&self) -> Seq<u8> {
        self.bytes@
    }
}

impl Journal {
    /// The committed bytes.
    pub fn bytes(&self) -> (r: &Vec<u8>)
        ensures
            r@ == self@,
    {
        &self.bytes
    }

    /// Reads the committed integer back.
    pub fn decode(&self) -> (r: Option<BoundedUint>)
        ensures
            r.is_some() <==> be_val(self@) < capacity(),
            r matches Some(x) ==> x.wf() && x@ == be_val(self@),
    {
        BoundedUint::from_be_bytes(self.bytes.as_slice())
    }
}

/// The full record of one execution.
#[derive(Clone, Debug)]
pub struct Session {
    pub exit_code: ExitCode,
    pub journal: Option<Journal>,
    pub fault: Option<SessionError>,
}

/// The fault, if any, that the inputs cause: each operand's width is
/// checked on its own, the base first, then the modulus is checked for
/// zero.
pub open spec fn session_fault(base: Seq<u8>, modulus: Seq<u8>) -> Option<SessionError> {
    if be_val(base) >= capacity() {
        Some(SessionError::InputTooLarge(Operand::Base))
    } else if be_val(modulus) >= capacity() {
        Some(SessionError::InputTooLarge(Operand::Modulus))
    } else if be_val(modulus) == 0 {
        Some(SessionError::ZeroModulus)
    } else {
        None
    }
}

/// The journal that valid inputs commit.
pub open spec fn journal_spec(base: Seq<u8>, modulus: Seq<u8>) -> Seq<u8> {
    canonical_bytes(modpow_spec(be_val(base), be_val(modulus)))
}

impl Session {
    /// The committed bytes, if any.
    pub open spec fn journal_view(&self) -> Option<Seq<u8>> {
        match self.journal {
            Some(j) => Some(j@),
            None => None,
        }
    }

    /// This session is the one that the given inputs produce.
    pub open spec fn is_outcome(&self, base: Seq<u8>, modulus: Seq<u8>) -> bool {
        &&& self.fault == session_fault(base, modulus)
        &&& match session_fault(base, modulus) {
            None => {
                &&& self.exit_code == ExitCode::Halted(0)
                &&& self.journal_view() == Some(journal_spec(base, modulus))
                &&& be_val(journal_spec(base, modulus)) == modpow_spec(be_val(base), be_val(modulus))
            },
            Some(_) => {
                &&& self.exit_code == ExitCode::Fault
                &&& self.journal_view().is_none()
            },
        }
    }
}

impl SessionError {
    /// A stable, human-readable description.  Every width fault contains
    /// the phrase "Input too large".
    pub fn message(&self) -> (r: String)
        ensures
            *self == SessionError::InputTooLarge(Operand::Base) ==> r@
                == "Input too large: base exceeds 3072 bits"@,
            *self == SessionError::InputTooLarge(Operand::Modulus) ==> r@
                == "Input too large: modulus exceeds 3072 bits"@,
            *self == SessionError::ZeroModulus ==> r@ == "Modulus is zero"@,
    {
        match self {
            SessionError::InputTooLarge(Operand::Base) => {
                "Input too large: base exceeds 3072 bits".to_owned()
            },
            SessionError::InputTooLarge(Operand::Modulus) => {
                "Input too large: modulus exceeds 3072 bits".to_owned()
            },
            SessionError::ZeroModulus => "Modulus is zero".to_owned(),
        }
    }
}

/// A base of one commits one, for every in-range modulus above one.
pub proof fn lemma_unit_base_commits_one(base: Seq<u8>, modulus: Seq<u8>)
    requires
        be_val(base) == 1,
        1 < be_val(modulus) < capacity(),
    ensures
        session_fault(base, modulus) is None,
        be_val(journal_spec(base, modulus)) == 1,
        journal_spec(base, modulus) == seq![1u8],
{
    lemma_unit_base(be_val(modulus));
    crate::bounded::lemma_one_below_capacity();
    lemma_canonical_round_trip(1);
    assert(canonical_bytes(0) == Seq::<u8>::empty());
    assert(seq![1u8] =~= Seq::<u8>::empty().push(1u8));
}

/// Each operand's width is checked on its own: an operand wider than
/// `MAX_BITS` is rejected with a width fault whatever the other operand
/// holds, and the base is named when both are too wide.
pub proof fn lemma_width_gates_each_operand(base: Seq<u8>, modulus: Seq<u8>)
    ensures
        be_val(base) >= capacity() ==> session_fault(base, modulus) == Some(
            SessionError::InputTooLarge(Operand::Base),
        ),
        be_val(base) < capacity() && be_val(modulus) >= capacity() ==> session_fault(base, modulus)
            == Some(SessionError::InputTooLarge(Operand::Modulus)),
        be_val(base) >= capacity() || be_val(modulus) >= capacity() ==> session_fault(
            base,
            modulus,
        ) matches Some(SessionError::InputTooLarge(_)),
{
}

/// Two sessions on the same inputs halt alike and commit the same bytes.
pub proof fn lemma_sessions_deterministic(
    base: Seq<u8>,
    modulus: Seq<u8>,
    first: Session,
    second: Session,
)
    requires
        first.is_outcome(base, modulus),
        second.is_outcome(base, modulus),
    ensures
        first.exit_code == second.exit_code,
        first.fault == second.fault,
        first.journal_view() == second.journal_view(),
{
}

/// Runs one session on big-endian operands of any length.  A valid pair
/// halts with status zero and commits `base^65537 mod modulus`; otherwise
/// the session records the fault and commits nothing.
pub fn run_session(base: &[u8], modulus: &[u8]) -> (s: Session)
    ensures
        s.is_outcome(base@, modulus@),
{
    let fault = |e: SessionError| -> (s: Session)
        ensures
            s.fault == Some(e),
            s.exit_code == ExitCode::Fault,
            s.journal_view().is_none(),
        { Session { exit_code: ExitCode::Fault, journal: None, fault: Some(e) } };
    let b = match BoundedUint::from_be_bytes(base) {
        Some(b) => b,
        None => {
            return fault(SessionError::InputTooLarge(Operand::Base));
        },
    };
    let m = match BoundedUint::from_be_bytes(modulus) {
        Some(m) => m,
        None => {
            return fault(SessionError::InputTooLarge(Operand::Modulus));
        },
    };
    if m.is_zero() {
        return fault(SessionError::ZeroModulus);
    }
    let r = modpow_65537(&b, &m);
    let bytes = r.to_be_bytes();
    proof {
        lemma_canonical_round_trip(r@);
    }
    Session { exit_code: ExitCode::Halted(0), journal: Some(Journal { bytes }), fault: None }
}

/// Runs one session and returns it when it halted successfully, or the
/// fault that stopped it.
pub fn execute_modpow_session(base: &[u8], modulus: &[u8]) -> (r: Result<Session, SessionError>)
    ensures
        r is Ok <==> session_fault(base@, modulus@) is None,
        r matches Err(e) ==> session_fault(base@, modulus@) == Some(e),
        r matches Ok(s) ==> s.is_outcome(base@, modulus@),
{
    let s = run_session(base, modulus);
    match s.fault {
        Some(e) => Err(e),
        None => Ok(s),
    }
}

} // verus!
