//! The ways in which resolving an instruction can fail.
use crate::text::{joined_with, texts};
use vstd::prelude::*;
use vstd::string::StringExecFns;

verus! {

/// Why an instruction could not be resolved.
#[derive(Debug, PartialEq, Eq)]
pub enum ResolutionError {
    /// No instruction of this name is known.
    InstructionNotFound(String),
    /// This name was met again while its own inclusion was still under way,
    /// or after an earlier neighbour of the same list.
    RecursiveInclude(String),
    /// The instruction does not list the operating system it is resolved on.
    UnsupportedOs { required: Vec<String>, actual: String },
    /// A path template names a directory that cannot be resolved.
    UnknownDirectory(String),
    /// The definition at this path could not be parsed; the cause follows.
    MalformedDefinition(String, String),
    /// The definition at this path could not be read; the cause follows.
    IoFailure(String, String),
    /// The groups of the included instruction of this name failed to resolve.
    Included(String, Box<ResolutionError>),
}

/// The mathematical value of a [`ResolutionError`].
pub enum ErrorView {
    InstructionNotFound(Seq<char>),
    RecursiveInclude(Seq<char>),
    UnsupportedOs { required: Seq<Seq<char>>, actual: Seq<char> },
    UnknownDirectory(Seq<char>),
    MalformedDefinition(Seq<char>, Seq<char>),
    IoFailure(Seq<char>, Seq<char>),
    Included(Seq<char>, Box<ErrorView>),
}

/// The mathematical value of an error.
pub open spec fn view_of(e: ResolutionError) -> ErrorView
    decreases e,
{
    match e {
        ResolutionError::InstructionNotFound(n) => ErrorView::InstructionNotFound(n@),
        ResolutionError::RecursiveInclude(n) => ErrorView::RecursiveInclude(n@),
        ResolutionError::UnsupportedOs { required, actual } => ErrorView::UnsupportedOs {
            required: texts(required@),
            actual: actual@,
        },
        ResolutionError::UnknownDirectory(n) => ErrorView::UnknownDirectory(n@),
        ResolutionError::MalformedDefinition(p, c) => ErrorView::MalformedDefinition(p@, c@),
        ResolutionError::IoFailure(p, c) => ErrorView::IoFailure(p@, c@),
        ResolutionError::Included(n, inner) => ErrorView::Included(n@, Box::new(view_of(*inner))),
    }
}

impl View for ResolutionError {
    type V = ErrorView;

    open spec fn view(&self) -> ErrorView {
        view_of(*self)
    }
}

/// The text that reports an error to the user.
pub open spec fn message_of(e: ErrorView) -> Seq<char>
    decreases e,
{
    match e {
        ErrorView::InstructionNotFound(n) => "Instruction does not exist ("@ + n + ")"@,
        ErrorView::RecursiveInclude(n) => "Recursive inclusion ("@ + n + ")"@,
        ErrorView::UnsupportedOs { required, actual } => "Instruction only support "@
            + joined_with(required, ", "@) + " not "@ + actual,
        ErrorView::UnknownDirectory(n) => "Unknown path type ("@ + n + ")"@,
        ErrorView::MalformedDefinition(p, c) => "Can't parse instruction ("@ + p + ") :: "@ + c,
        ErrorView::IoFailure(_p, c) => c,
        ErrorView::Included(n, inner) => "error while including ("@ + n + ") :: "@ + message_of(
            *inner,
        ),
    }
}

/// The strings of `parts`, with `sep` between each two neighbours.
pub fn join(parts: &Vec<String>, sep: &str) -> (r: String)
    ensures
        r@ == joined_with(texts(parts@), sep@),
{
    let mut r = String::new();
    let mut i: usize = 0;
    while i < parts.len()
        invariant
            i <= parts.len(),
            r@ == joined_with(texts(parts@).take(i as int), sep@),
        decreases parts.len() - i,
    {
        proof {
            let before = texts(parts@).take(i as int);
            let after = texts(parts@).take(i + 1);
            assert(after.drop_last() =~= before);
            assert(after.last() == parts@[i as int]@);
            if i == 0 {
                assert(r@ + parts@[0]@ =~= parts@[0]@);
            }
        }
        if i > 0 {
            r.append(sep);
        }
        r.append(parts[i].as_str());
        i += 1;
    }
    proof {
        assert(texts(parts@).take(parts.len() as int) =~= texts(parts@));
    }
    r
}

impl ResolutionError {
    /// The text that reports this error to the user.
    pub fn message(&self) -> (r: String)
        ensures
            r@ == message_of(self@),
        decreases self,
    {
        match self {
            ResolutionError::InstructionNotFound(n) => {
                let mut r = String::from_str("Instruction does not exist (");
                r.append(n.as_str());
                r.append(")");
                r
            },
            ResolutionError::RecursiveInclude(n) => {
                let mut r = String::from_str("Recursive inclusion (");
                r.append(n.as_str());
                r.append(")");
                r
            },
            ResolutionError::UnsupportedOs { required, actual } => {
                let mut r = String::from_str("Instruction only support ");
                let list = join(required, ", ");
                r.append(list.as_str());
                r.append(" not ");
                r.append(actual.as_str());
                r
            },
            ResolutionError::UnknownDirectory(n) => {
                let mut r = String::from_str("Unknown path type (");
                r.append(n.as_str());
                r.append(")");
                r
            },
            ResolutionError::MalformedDefinition(p, c) => {
                let mut r = String::from_str("Can't parse instruction (");
                r.append(p.as_str());
                r.append(") :: ");
                r.append(c.as_str());
                r
            },
            ResolutionError::IoFailure(_p, c) => c.clone(),
            ResolutionError::Included(n, e) => {
                let mut r = String::from_str("error while including (");
                r.append(n.as_str());
                r.append(") :: ");
                let inner = e.message();
                r.append(inner.as_str());
                r
            },
        }
    }
}

} // verus!
