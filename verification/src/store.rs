//! The instructions that are known by name, as they were read.
use crate::error::{ErrorView, ResolutionError};
use crate::settings::{RawInstruction, RawInstructionView};
use crate::text::same;
use vstd::prelude::*;

verus! {

/// What reading the definition of an instruction gave.
#[derive(Debug, PartialEq, Eq)]
pub enum Definition {
    /// The definition, parsed.
    Parsed(RawInstruction),
    /// The text could not be parsed; the cause is given.
    Malformed(String),
    /// The text could not be read; the cause is given.
    Unreadable(String),
}

/// The mathematical value of a [`Definition`].
pub enum DefinitionView {
    Parsed(RawInstructionView),
    Malformed(Seq<char>),
    Unreadable(Seq<char>),
}

impl View for Definition {
    type V = DefinitionView;

    open spec fn view(&self) -> DefinitionView {
        match self {
            Definition::Parsed(raw) => DefinitionView::Parsed(raw@),
            Definition::Malformed(cause) => DefinitionView::Malformed(cause@),
            Definition::Unreadable(cause) => DefinitionView::Unreadable(cause@),
        }
    }
}

/// An instruction by its name: where its definition lies, and what reading
/// it gave.
#[derive(Debug, PartialEq, Eq)]
pub struct StoredInstruction {
    pub name: String,
    pub path: String,
    pub definition: Definition,
}

/// The mathematical value of a [`StoredInstruction`].
pub struct StoredView {
    pub name: Seq<char>,
    pub path: Seq<char>,
    pub definition: DefinitionView,
}

impl View for StoredInstruction {
    type V = StoredView;

    open spec fn view(&self) -> StoredView {
        StoredView { name: self.name@, path: self.path@, definition: self.definition@ }
    }
}

/// The instructions that can be looked up by name. Where a name stands more
/// than once, the first of its entries counts.
#[derive(Debug, PartialEq, Eq)]
pub struct InstructionStore {
    pub entries: Vec<StoredInstruction>,
}

impl View for InstructionStore {
    type V = Seq<StoredView>;

    open spec fn view(&self) -> Seq<StoredView> {
        self.entries@.map_values(|s: StoredInstruction| s@)
    }
}

/// The names of the stored instructions, in order.
pub open spec fn stored_names(store: Seq<StoredView>) -> Seq<Seq<char>> {
    store.map_values(|s: StoredView| s.name)
}

/// The entry that stands for `name`, if there is one.
pub open spec fn stored(store: Seq<StoredView>, name: Seq<char>) -> Option<StoredView> {
    match stored_names(store).index_of_first(name) {
        Some(i) => Some(store[i]),
        None => None,
    }
}

/// What loading `name` gives: its parsed definition, or the reason why
/// there is none.
pub open spec fn loaded(store: Seq<StoredView>, name: Seq<char>) -> Result<
    RawInstructionView,
    ErrorView,
> {
    match stored(store, name) {
        None => Err(ErrorView::InstructionNotFound(name)),
        Some(s) => match s.definition {
            DefinitionView::Parsed(raw) => Ok(raw),
            DefinitionView::Malformed(cause) => Err(ErrorView::MalformedDefinition(s.path, cause)),
            DefinitionView::Unreadable(cause) => Err(ErrorView::IoFailure(s.path, cause)),
        },
    }
}

/// The view of the outcome of loading a definition.
pub open spec fn raw_result(r: Result<&RawInstruction, ResolutionError>) -> Result<
    RawInstructionView,
    ErrorView,
> {
    match r {
        Ok(raw) => Ok(raw@),
        Err(e) => Err(e@),
    }
}

impl InstructionStore {
    /// The entry that stands for `name`, if there is one.
    pub fn find(&self, name: &str) -> (r: Option<&StoredInstruction>)
        ensures
            match r {
                Some(s) => stored(self@, name@) == Some(s@),
                None => stored(self@, name@) is None,
            },
    {
        let mut i: usize = 0;
        while i < self.entries.len()
            invariant
                i <= self.entries.len(),
                forall|j: int| 0 <= j < i ==> stored_names(self@)[j] != name@,
            decreases self.entries.len() - i,
        {
            if same(self.entries[i].name.as_str(), name) {
                proof {
                    stored_names(self@).index_of_first_ensures(name@);
                    assert(stored_names(self@)[i as int] == name@);
                }
                return Some(&self.entries[i]);
            }
            i += 1;
        }
        proof {
            stored_names(self@).index_of_first_ensures(name@);
        }
        None
    }

    /// Whether an instruction of this name is known.
    pub fn knows(&self, name: &str) -> (r: bool)
        ensures
            r == stored_names(self@).contains(name@),
    {
        proof {
            stored_names(self@).index_of_first_ensures(name@);
        }
        self.find(name).is_some()
    }

    /// Loads the definition of the instruction `name`.
    pub fn load(&self, name: &str) -> (r: Result<&RawInstruction, ResolutionError>)
        ensures
            raw_result(r) == loaded(self@, name@),
    {
        match self.find(name) {
            None => Err(ResolutionError::InstructionNotFound(name.to_owned())),
            Some(s) => match &s.definition {
                Definition::Parsed(raw) => Ok(raw),
                Definition::Malformed(cause) => Err(
                    ResolutionError::MalformedDefinition(s.path.clone(), cause.clone()),
                ),
                Definition::Unreadable(cause) => Err(
                    ResolutionError::IoFailure(s.path.clone(), cause.clone()),
                ),
            },
        }
    }
}

} // verus!
