//! What the results of the parsers stand for.
//!
//! The contracts speak of values. A value stands for a result field by field and item by item, so
//! that what is said of the value holds of what a caller gets.

use vstd::prelude::*;

use crate::container::entry_texts;
use crate::decompression::answers;
use crate::dir_stream::ProjectInformation;
use crate::error::{yields, Error, ErrorView};
use crate::format::{agrees, FormatError, Model, Parsed};
use crate::information::Information;
use crate::modules::Module;
use crate::project::{only_file_differs, ProjectView};
use crate::references::{
    Reference, ReferenceControl, ReferenceProject, ReferenceRegistered, ReferenceView,
};

verus! {

/// A result that agrees with what a parser says has its value and leaves the same bytes, or is an
/// error as well.
pub proof fn lemma_agreement<'a, T: Model>(
    result: Result<(&'a [u8], T), FormatError<&'a [u8]>>,
    parsed: Parsed<T::M>,
)
    ensures
        agrees(result, parsed) <==> match (result, parsed) {
            (Ok((rest, value)), Ok((left, said))) => rest@ == left && value.model() == said,
            (Err(error), Err(said)) => match (error, said) {
                (FormatError::UnexpectedValue, FormatError::UnexpectedValue) => true,
                (FormatError::Syntax(at, kind), FormatError::Syntax(place, expected)) => {
                    at@ == place && kind == expected
                },
                (FormatError::Incomplete(missing), FormatError::Incomplete(count)) => missing
                    == count,
                _ => false,
            },
            _ => false,
        },
{
}

/// There is an answer if and only if there is one to agree with.
pub proof fn lemma_answer<'a, T: Model>(
    result: Option<Result<(&'a [u8], T), FormatError<&'a [u8]>>>,
    parsed: Option<Parsed<T::M>>,
)
    ensures
        answers(result, parsed) <==> match (result, parsed) {
            (Some(answer), Some(said)) => agrees(answer, said),
            (None, None) => true,
            _ => false,
        },
{
}

/// The result of an operation on a project is the value or the error that its outcome says.
pub proof fn lemma_outcome<T: Model>(result: Result<T, Error>, outcome: Result<T::M, ErrorView>)
    ensures
        yields(result, outcome) <==> match (result, outcome) {
            (Ok(value), Ok(said)) => value.model() == said,
            (Err(error), Err(said)) => match (error, said) {
                (Error::Cfb(_), ErrorView::Cfb) => true,
                (Error::Io(_), ErrorView::Io) => true,
                (Error::Decompressor, ErrorView::Decompressor) => true,
                (Error::Parser, ErrorView::Parser) => true,
                (Error::ModuleNotFound(name), ErrorView::ModuleNotFound(found)) => name@ == found,
                (Error::Generic(reason), ErrorView::Generic(said)) => reason@ == said,
                _ => false,
            },
            _ => false,
        },
{
}

/// The values of bytes, numbers and texts are what they are.
pub proof fn lemma_plain_values(
    bytes: Vec<u8>,
    slice: &[u8],
    text: String,
    missing: Option<String>,
    short: u16,
    long: u32,
)
    ensures
        bytes.model() == bytes@,
        slice.model() == slice@,
        text.model() == text@,
        missing is None <==> missing.model() is None,
        missing matches Some(text) ==> missing.model() == Some(text@),
        short.model() == short,
        long.model() == long,
{
}

/// The value of a module has the value of each of its fields.
pub proof fn lemma_module_value(module: Module)
    ensures
        module.model().name == module.name@,
        module.model().stream_name == module.stream_name@,
        module.model().doc_string == module.doc_string@,
        module.model().text_offset == module.text_offset,
        module.model().help_context == module.help_context,
        module.model().module_type == module.module_type,
        module.model().read_only == module.read_only,
        module.model().private == module.private,
{
}

/// The value of a list of modules has the value of each of them, in their order.
pub proof fn lemma_modules_value(modules: Vec<Module>)
    ensures
        modules.model().len() == modules@.len(),
        forall|k: int|
            0 <= k < modules@.len() ==> #[trigger] modules.model()[k] == modules@[k].model(),
{
}

/// The value of a twiddled type library has the value of each of its fields.
pub proof fn lemma_control_value(control: ReferenceControl)
    ensures
        control.model().name == control.name.model(),
        control.model().libid_original == control.libid_original.model(),
        control.model().libid_twiddled == control.libid_twiddled@,
        control.model().name_extended == control.name_extended.model(),
        control.model().libid_extended == control.libid_extended@,
        control.model().guid == control.guid@,
        control.model().cookie == control.cookie,
{
}

/// The value of an Automation type library has the value of each of its fields.
pub proof fn lemma_registered_value(registered: ReferenceRegistered)
    ensures
        registered.model().name == registered.name.model(),
        registered.model().libid == registered.libid@,
{
}

/// The value of a reference to an external project has the value of each of its fields.
pub proof fn lemma_external_project_value(project: ReferenceProject)
    ensures
        project.model().name == project.name.model(),
        project.model().libid_absolute == project.libid_absolute@,
        project.model().libid_relative == project.libid_relative@,
        project.model().major_version == project.major_version,
        project.model().minor_version == project.minor_version,
{
}

/// The value of a reference is of its kind, and has the value of each of its fields.
pub proof fn lemma_reference_value(reference: Reference)
    ensures
        reference matches Reference::Control(control) ==> reference.model()
            == ReferenceView::Control(control.model()),
        reference matches Reference::Original(original) ==> reference.model()
            == (ReferenceView::Original {
            name: original.name.model(),
            libid_original: original.libid_original@,
        }),
        reference matches Reference::Registered(registered) ==> reference.model()
            == ReferenceView::Registered(registered.model()),
        reference matches Reference::Project(project) ==> reference.model()
            == ReferenceView::Project(project.model()),
{
}

/// The value of a list of references has the value of each of them, in their order.
pub proof fn lemma_references_value(references: Vec<Reference>)
    ensures
        references.model().len() == references@.len(),
        forall|k: int|
            0 <= k < references@.len() ==> #[trigger] references.model()[k]
                == references@[k].model(),
{
}

/// The value of a project's information has the value of each of its fields.
pub proof fn lemma_information_value(information: Information)
    ensures
        information@.sys_kind == information.sys_kind,
        information@.compat == information.compat,
        information@.lcid == information.lcid,
        information@.lcid_invoke == information.lcid_invoke,
        information@.code_page == information.code_page,
        information@.name == information.name@,
        information@.doc_string == information.doc_string@,
        information@.help_file_1 == information.help_file_1@,
        information@.help_context == information.help_context,
        information@.lib_flags == information.lib_flags,
        information@.version_major == information.version_major,
        information@.version_minor == information.version_minor,
        information@.constants == information.constants.model(),
{
}

/// The value of what a *dir* stream says has the value of each of its parts.
pub proof fn lemma_project_information_value(project: ProjectInformation)
    ensures
        project.model().information == project.information@,
        project.model().references == project.references.model(),
        project.model().modules == project.modules.model(),
{
}

/// The names and paths in a list of entries are those of each entry, in their order.
pub proof fn lemma_entries_value(entries: Seq<(String, String)>)
    ensures
        entry_texts(entries).len() == entries.len(),
        forall|k: int|
            0 <= k < entries.len() ==> #[trigger] entry_texts(entries)[k] == (
                entries[k].0@,
                entries[k].1@,
            ),
{
}

/// A project that differs from another only in its compound file has the same information,
/// references and modules, and was opened from the same bytes.
pub proof fn lemma_only_file_differs(before: ProjectView, after: ProjectView)
    ensures
        only_file_differs(before, after) <==> {
            &&& after.information == before.information
            &&& after.references == before.references
            &&& after.modules == before.modules
            &&& after.original_raw_data == before.original_raw_data
        },
{
}

} // verus!
