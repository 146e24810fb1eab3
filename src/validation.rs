//! Why a call is refused, and how the constraint interpreter's answer turns
//! into a decision.
use vstd::prelude::*;
use vstd::string::StringExecFns;

verus! {

/// Where a runtime call lacks permission.
#[derive(Clone, Copy, Debug, PartialEq, Eq, Structural)]
pub enum RuntimeDomain {
    Method,
    MethodArguments,
    Module,
}

/// Where a contract call lacks permission.
#[derive(Clone, Copy, Debug, PartialEq, Eq, Structural)]
pub enum ContractDomain {
    Contract,
}

/// Why a call is refused.
#[derive(Clone, Copy, Debug, PartialEq, Eq)]
pub enum ValidationErr<Domain> {
    /// The token grants nothing that covers the call in this domain.
    NoPermission(Domain),
    /// The constraint program failed while it ran.
    ConstraintsInterpretation,
}

/// What the constraint interpreter made of a call's arguments.
#[derive(Clone, Copy, Debug, PartialEq, Eq, Structural)]
pub enum Interpretation {
    /// The constraint bytes are not a program the interpreter can read; a
    /// decoded grant never holds such bytes, so this is refused as a failure.
    Unreadable,
    /// The program ran and accepted (`true`) or rejected (`false`) the arguments.
    Verdict(bool),
    /// The program failed while it ran.
    Failed,
}

/// The decision on a call whose method grant carries constraints, given what
/// the interpreter made of them.
pub open spec fn constraints_decision(i: Interpretation) -> Result<(), ValidationErr<RuntimeDomain>> {
    match i {
        Interpretation::Unreadable => Err(ValidationErr::ConstraintsInterpretation),
        Interpretation::Verdict(true) => Ok(()),
        Interpretation::Verdict(false) => Err(
            ValidationErr::NoPermission(RuntimeDomain::MethodArguments),
        ),
        Interpretation::Failed => Err(ValidationErr::ConstraintsInterpretation),
    }
}

/// Decides a constrained call from the interpreter's answer: accepted
/// arguments pass, rejected arguments are refused in the arguments domain, and
/// an unreadable program or a failed run is refused as a failed
/// interpretation.
pub fn decide_constraints(i: Interpretation) -> (r: Result<(), ValidationErr<RuntimeDomain>>)
    ensures
        r == constraints_decision(i),
{
    match i {
        Interpretation::Unreadable => Err(ValidationErr::ConstraintsInterpretation),
        Interpretation::Verdict(accepted) => {
            if accepted {
                Ok(())
            } else {
                Err(ValidationErr::NoPermission(RuntimeDomain::MethodArguments))
            }
        },
        Interpretation::Failed => Err(ValidationErr::ConstraintsInterpretation),
    }
}

impl RuntimeDomain {
    /// The domain's name in words.
    pub open spec fn describe_spec(&self) -> Seq<char> {
        match self {
            RuntimeDomain::Method => "method"@,
            RuntimeDomain::MethodArguments => "method arguments"@,
            RuntimeDomain::Module => "module"@,
        }
    }

    /// The domain's name in words.
    pub fn describe(&self) -> (r: String)
        ensures
            r@ == self.describe_spec(),
    {
        match self {
            RuntimeDomain::Method => "method".to_string(),
            RuntimeDomain::MethodArguments => "method arguments".to_string(),
            RuntimeDomain::Module => "module".to_string(),
        }
    }
}

impl ContractDomain {
    /// The domain's name in words.
    pub fn describe(&self) -> (r: String)
        ensures
            r@ == "contract"@,
    {
        "contract".to_string()
    }
}

/// The sentence that reports a refusal in the domain named `domain`.
pub open spec fn refusal_text(domain: Seq<char>) -> Seq<char> {
    "CENNZnut does not grant permission for "@ + domain
}

impl ValidationErr<RuntimeDomain> {
    /// The refusal in words.
    pub fn describe(&self) -> (r: String)
        ensures
            r@ == match self {
                ValidationErr::NoPermission(d) => refusal_text(d.describe_spec()),
                ValidationErr::ConstraintsInterpretation => "error while interpreting constraints"@,
            },
    {
        match self {
            ValidationErr::NoPermission(d) => {
                let mut text = "CENNZnut does not grant permission for ".to_string();
                let name = d.describe();
                text.append(name.as_str());
                text
            },
            ValidationErr::ConstraintsInterpretation => "error while interpreting constraints".to_string(),
        }
    }
}

impl ValidationErr<ContractDomain> {
    /// The refusal in words.
    pub fn describe(&self) -> (r: String)
        ensures
            r@ == match self {
                ValidationErr::NoPermission(_) => refusal_text("contract"@),
                ValidationErr::ConstraintsInterpretation => "error while interpreting constraints"@,
            },
    {
        match self {
            ValidationErr::NoPermission(d) => {
                let mut text = "CENNZnut does not grant permission for ".to_string();
                let name = d.describe();
                text.append(name.as_str());
                text
            },
            ValidationErr::ConstraintsInterpretation => "error while interpreting constraints".to_string(),
        }
    }
}

} // verus!
