//! The parts of a citation style and of a reference that the disambiguation
//! core reads: the name element's configuration and a person's name.
use vstd::prelude::*;

verus! {

/// How much of a name the style renders.
#[derive(Debug, PartialEq, Eq, Structural, Copy, Clone)]
pub enum NameForm {
    Long,
    Short,
    Count,
}

/// The style's rule for adding given names to disambiguate.
#[derive(Debug, PartialEq, Eq, Structural, Copy, Clone)]
pub enum GivenNameDisambiguationRule {
    ByCite,
    AllNames,
    AllNamesWithInitials,
    PrimaryName,
    PrimaryNameWithInitials,
}

/// The name variables that a names element can render.
#[derive(Debug, PartialEq, Eq, Structural, Copy, Clone)]
pub enum NameVariable {
    Author,
    Editor,
    Translator,
    CollectionEditor,
    ContainerAuthor,
    Director,
    Interviewer,
    Recipient,
}

/// The number variables of a reference or a cite.
#[derive(Debug, PartialEq, Eq, Structural, Copy, Clone)]
pub enum NumberVariable {
    Locator,
    FirstReferenceNoteNumber,
    CitationNumber,
    Page,
    Volume,
    Issue,
    Edition,
    NumberOfPages,
}

/// The ordinary (text) variables.
#[derive(Debug, PartialEq, Eq, Structural, Copy, Clone)]
pub enum Variable {
    YearSuffix,
    Title,
    ContainerTitle,
    Publisher,
    Genre,
    Note,
}

/// A variable that a `<text>` or `<number>` element renders.
#[derive(Debug, PartialEq, Eq, Structural, Copy, Clone)]
pub enum StandardVariable {
    Number(NumberVariable),
    Ordinary(Variable),
}

/// The date variables.
#[derive(Debug, PartialEq, Eq, Structural, Copy, Clone)]
pub enum DateVariable {
    Accessed,
    Issued,
    EventDate,
    OriginalDate,
    Submitted,
}

/// The style's naming configuration, as far as name rendering and
/// disambiguation read it.
#[derive(Debug, Clone)]
pub struct NameEl {
    pub form: Option<NameForm>,
    pub initialize: Option<bool>,
    pub initialize_with: Option<String>,
}

/// A structured person name, an immutable input.
#[derive(Debug, Clone)]
pub struct PersonName {
    pub family: Option<String>,
    pub given: Option<String>,
    pub non_dropping_particle: Option<String>,
    pub dropping_particle: Option<String>,
    pub suffix: Option<String>,
    pub literal: Option<String>,
}

/// The view of an optional string.
pub open spec fn opt_view(s: Option<String>) -> Option<Seq<char>> {
    match s {
        Some(x) => Some(x@),
        None => None,
    }
}

/// A copy of an optional string with the same view.
pub fn copy_opt(s: &Option<String>) -> (r: Option<String>)
    ensures
        r == *s,
{
    match s {
        Some(x) => Some(x.clone()),
        None => None,
    }
}

impl NameEl {
    /// A copy of this element, equal to it.
    pub fn duplicate(&self) -> (r: NameEl)
        ensures
            r == *self,
    {
        NameEl {
            form: self.form,
            initialize: self.initialize,
            initialize_with: copy_opt(&self.initialize_with),
        }
    }
}

impl PersonName {
    /// A copy of this name, equal to it.
    pub fn duplicate(&self) -> (r: PersonName)
        ensures
            r == *self,
    {
        PersonName {
            family: copy_opt(&self.family),
            given: copy_opt(&self.given),
            non_dropping_particle: copy_opt(&self.non_dropping_particle),
            dropping_particle: copy_opt(&self.dropping_particle),
            suffix: copy_opt(&self.suffix),
            literal: copy_opt(&self.literal),
        }
    }
}

} // verus!
