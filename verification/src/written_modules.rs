//! The records of the modules, told from the side of whoever writes them.

use vstd::prelude::*;

use crate::bytes::{data_record, u16_field, u16_record, u32_record};
use crate::code_page::text_of;
use crate::format::FormatError;
use crate::modules::{
    empty_record, flag_record, module_kind, module_name, module_record, module_settings,
    module_type_record, modules, modules_from, text_records, ModuleType, ModuleView,
};
use crate::written_records::{
    fits, four, gives, lemma_four, lemma_missing, lemma_number_is_there, lemma_record,
    lemma_record_is_there, lemma_two, lemma_u16_record, lemma_u16_record_is_there, lemma_u32_record,
    lemma_u32_record_is_there, lemma_where_missing, record, rejects_at, starts_with, two,
};

verus! {

/// What the records of a module hold.
pub struct ModuleSource {
    pub name: Seq<u8>,
    pub name_unicode: Option<Seq<u8>>,
    pub stream_name: Seq<u8>,
    pub stream_name_unicode: Seq<u8>,
    pub doc_string: Seq<u8>,
    pub doc_string_unicode: Seq<u8>,
    pub text_offset: u32,
    pub help_context: u32,
    pub cookie: u16,
    pub is_procedural: bool,
    pub is_read_only: bool,
    pub is_private: bool,
}

/// A record that may be missing, in front of other bytes.
pub open spec fn with_optional(id: u16, contents: Option<Seq<u8>>, rest: Seq<u8>) -> Seq<u8> {
    match contents {
        Some(contents) => record(id, contents) + rest,
        None => rest,
    }
}

/// A record without contents that stands for a flag, in front of other bytes.
pub open spec fn with_flag(id: u16, is_set: bool, rest: Seq<u8>) -> Seq<u8> {
    if is_set {
        record(id, Seq::empty()) + rest
    } else {
        rest
    }
}

/// The records of a module's type and flags, and its end, in front of other bytes.
#[verifier::opaque]
pub open spec fn with_kind(source: ModuleSource, rest: Seq<u8>) -> Seq<u8> {
    record(
        if source.is_procedural {
            0x21
        } else {
            0x22
        },
        Seq::empty(),
    ) + with_flag(
        0x25,
        source.is_read_only,
        with_flag(0x28, source.is_private, record(0x2b, Seq::empty()) + rest),
    )
}

/// The records behind those of a module's texts, in front of other bytes.
#[verifier::opaque]
pub open spec fn with_settings(source: ModuleSource, rest: Seq<u8>) -> Seq<u8> {
    record(0x31, four(source.text_offset as int)) + (record(0x1e, four(source.help_context as int))
        + (record(0x2c, two(source.cookie as int)) + with_kind(source, rest)))
}

/// Two records that hold a text, in front of other bytes.
pub open spec fn with_text(
    id: u16,
    text: Seq<u8>,
    unicode_id: u16,
    unicode: Seq<u8>,
    rest: Seq<u8>,
) -> Seq<u8> {
    record(id, text) + (record(unicode_id, unicode) + rest)
}

/// The records of a module, in front of other bytes.
pub open spec fn with_module(source: ModuleSource, rest: Seq<u8>) -> Seq<u8> {
    record(0x19, source.name) + with_optional(
        0x47,
        source.name_unicode,
        with_text(
            0x1a,
            source.stream_name,
            0x32,
            source.stream_name_unicode,
            with_text(
                0x1c,
                source.doc_string,
                0x48,
                source.doc_string_unicode,
                with_settings(source, rest),
            ),
        ),
    )
}

/// Whether the texts of a module fit in its records.
pub open spec fn module_fits(source: ModuleSource) -> bool {
    &&& fits(source.name)
    &&& source.name_unicode matches Some(unicode) ==> fits(unicode)
    &&& fits(source.stream_name)
    &&& fits(source.stream_name_unicode)
    &&& fits(source.doc_string)
    &&& fits(source.doc_string_unicode)
}

/// What the records of a module say: its texts in the project's code page, its numbers, its type
/// and its flags.
pub open spec fn module_value(source: ModuleSource, code_page: u16) -> ModuleView {
    ModuleView {
        name: text_of(code_page, source.name),
        stream_name: text_of(code_page, source.stream_name),
        doc_string: text_of(code_page, source.doc_string),
        text_offset: source.text_offset as nat,
        help_context: source.help_context,
        module_type: if source.is_procedural {
            ModuleType::Procedural
        } else {
            ModuleType::DocClsDesigner
        },
        read_only: source.is_read_only,
        private: source.is_private,
    }
}

/// A record without contents is read from its identifier and a size of zero.
pub proof fn lemma_empty_record(id: u16, rest: Seq<u8>)
    ensures
        empty_record(record(id, Seq::empty()) + rest, id) == gives(rest, ()),
        record(id, Seq::empty()) + rest == two(id as int) + (four(0) + rest),
        starts_with(record(id, Seq::empty()) + rest, id),
{
    reveal(record);
    let behind = four(0) + rest;
    assert(record(id, Seq::empty()) + rest == two(id as int) + behind);
    lemma_two(id, behind);
    lemma_four(0, rest);
}

/// Where a record without contents is read, the input consists of the record and what is left.
pub proof fn lemma_empty_record_is_there(input: Seq<u8>, id: u16)
    ensures
        empty_record(input, id) matches Ok((rest, _)) ==> input == record(id, Seq::empty()) + rest,
{
    lemma_number_is_there(input);
    lemma_number_is_there(input.skip(2));
    if let Ok((rest, _)) = empty_record(input, id) {
        lemma_empty_record(id, rest);
    }
}

/// A flag is set where there is the record for it.
proof fn lemma_flag(id: u16, is_set: bool, rest: Seq<u8>)
    requires
        !starts_with(rest, id),
    ensures
        flag_record(with_flag(id, is_set, rest), id) == gives(rest, is_set),
{
    if is_set {
        lemma_empty_record(id, rest);
    } else {
        lemma_missing(rest, id);
    }
}

/// A module's type and its flags are read as they are.
proof fn lemma_kind(source: ModuleSource, rest: Seq<u8>)
    ensures
        module_kind(with_kind(source, rest)) == gives(
            rest,
            (
                if source.is_procedural {
                    ModuleType::Procedural
                } else {
                    ModuleType::DocClsDesigner
                },
                (source.is_read_only, source.is_private),
            ),
        ),
{
    reveal(with_kind);
    reveal(module_kind);
    let end = record(0x2b, Seq::empty()) + rest;
    let private = with_flag(0x28, source.is_private, end);
    let read_only = with_flag(0x25, source.is_read_only, private);
    let id: u16 = if source.is_procedural {
        0x21
    } else {
        0x22
    };
    lemma_empty_record(0x2b, rest);
    lemma_two(0x2b, four(0) + rest);
    lemma_four(0, rest);
    lemma_empty_record(0x28, end);
    lemma_flag(0x28, source.is_private, end);
    lemma_flag(0x25, source.is_read_only, private);
    lemma_empty_record(id, read_only);
    lemma_two(id, four(0) + read_only);
    lemma_four(0, read_only);
}

/// A module's numbers, its type and its flags are read as they are.
proof fn lemma_settings(source: ModuleSource, rest: Seq<u8>)
    ensures
        module_settings(with_settings(source, rest)) == gives(
            rest,
            (
                (source.text_offset, source.help_context),
                (
                    if source.is_procedural {
                        ModuleType::Procedural
                    } else {
                        ModuleType::DocClsDesigner
                    },
                    (source.is_read_only, source.is_private),
                ),
            ),
        ),
{
    reveal(with_settings);
    reveal(module_settings);
    let kind = with_kind(source, rest);
    let cookie = record(0x2c, two(source.cookie as int)) + kind;
    let help_context = record(0x1e, four(source.help_context as int)) + cookie;
    lemma_kind(source, rest);
    lemma_u16_record(0x2c, source.cookie, kind);
    lemma_u32_record(0x1e, source.help_context, cookie);
    lemma_u32_record(0x31, source.text_offset, help_context);
}

/// A text is read in the project's code page.
pub proof fn lemma_text(
    id: u16,
    text: Seq<u8>,
    unicode_id: u16,
    unicode: Seq<u8>,
    rest: Seq<u8>,
    code_page: u16,
)
    requires
        fits(text),
        fits(unicode),
    ensures
        text_records(with_text(id, text, unicode_id, unicode, rest), id, unicode_id, code_page)
            == gives(rest, text_of(code_page, text)),
        starts_with(with_text(id, text, unicode_id, unicode, rest), id),
{
    reveal(text_records);
    lemma_record(unicode_id, unicode, rest);
    lemma_record(id, text, record(unicode_id, unicode) + rest);
}

/// A module is read as what its records say.
pub proof fn lemma_module_is_read(source: ModuleSource, rest: Seq<u8>, code_page: u16)
    requires
        module_fits(source),
    ensures
        module_record(with_module(source, rest), code_page) == gives(
            rest,
            module_value(source, code_page),
        ),
{
    reveal(module_record);
    let settings = with_settings(source, rest);
    let doc_string = with_text(
        0x1c,
        source.doc_string,
        0x48,
        source.doc_string_unicode,
        settings,
    );
    let stream_name = with_text(
        0x1a,
        source.stream_name,
        0x32,
        source.stream_name_unicode,
        doc_string,
    );
    let name_unicode = with_optional(0x47, source.name_unicode, stream_name);
    lemma_settings(source, rest);
    lemma_text(0x1c, source.doc_string, 0x48, source.doc_string_unicode, settings, code_page);
    lemma_text(0x1a, source.stream_name, 0x32, source.stream_name_unicode, doc_string, code_page);
    lemma_record(0x19, source.name, name_unicode);
    match source.name_unicode {
        Some(unicode) => lemma_record(0x47, unicode, stream_name),
        None => lemma_missing(stream_name, 0x47),
    }
    assert(module_name(with_module(source, rest), code_page) == gives(
        stream_name,
        text_of(code_page, source.name),
    )) by {
        reveal(module_name);
    }
}

/// A module of which a record is missing is rejected where the record would start.
pub proof fn lemma_module_without_text_is_rejected(
    source: ModuleSource,
    input: Seq<u8>,
    code_page: u16,
)
    requires
        module_fits(source),
    ensures
        !starts_with(input, 0x19) ==> module_record(input, code_page) == rejects_at::<ModuleView>(
            input,
        ),
        !starts_with(input, 0x47) && !starts_with(input, 0x1a) ==> module_record(
            record(0x19, source.name) + with_optional(0x47, source.name_unicode, input),
            code_page,
        ) == rejects_at::<ModuleView>(input),
        !starts_with(input, 0x32) ==> module_record(
            record(0x19, source.name) + with_optional(
                0x47,
                source.name_unicode,
                record(0x1a, source.stream_name) + input,
            ),
            code_page,
        ) == rejects_at::<ModuleView>(input),
        !starts_with(input, 0x1c) ==> module_record(
            record(0x19, source.name) + with_optional(
                0x47,
                source.name_unicode,
                with_text(0x1a, source.stream_name, 0x32, source.stream_name_unicode, input),
            ),
            code_page,
        ) == rejects_at::<ModuleView>(input),
{
    let text = record(0x1a, source.stream_name) + input;
    let texts = with_text(0x1a, source.stream_name, 0x32, source.stream_name_unicode, input);
    lemma_where_missing(input, 0x19);
    lemma_where_missing(input, 0x1a);
    lemma_where_missing(input, 0x32);
    lemma_where_missing(input, 0x1c);
    lemma_record(0x1a, source.stream_name, input);
    lemma_text(0x1a, source.stream_name, 0x32, source.stream_name_unicode, input, code_page);
    lemma_module_starts(source, input, code_page);
    lemma_module_starts(source, text, code_page);
    lemma_module_starts(source, texts, code_page);
    reveal(module_record);
    assert(!starts_with(input, 0x19) ==> module_name(input, code_page) == rejects_at::<Seq<char>>(
        input,
    )) by {
        reveal(module_name);
    }
    reveal(text_records);
}

/// The name of a module is read, and what stands behind it is left.
proof fn lemma_module_starts(source: ModuleSource, rest: Seq<u8>, code_page: u16)
    requires
        module_fits(source),
    ensures
        !starts_with(rest, 0x47) ==> module_name(
            record(0x19, source.name) + with_optional(0x47, source.name_unicode, rest),
            code_page,
        ) == gives(rest, text_of(code_page, source.name)),
{
    reveal(module_name);
    if !starts_with(rest, 0x47) {
        lemma_record(0x19, source.name, with_optional(0x47, source.name_unicode, rest));
        match source.name_unicode {
            Some(unicode) => lemma_record(0x47, unicode, rest),
            None => lemma_missing(rest, 0x47),
        }
    }
}

/// The records behind the texts of a module of which one is missing are rejected where it would
/// start, and an identifier that stands for no type of module is not expected.
pub proof fn lemma_module_without_setting_is_rejected(source: ModuleSource, input: Seq<u8>)
    ensures
        !starts_with(input, 0x31) ==> module_settings(input) == rejects_at::<
            ((u32, u32), (ModuleType, (bool, bool))),
        >(input),
        !starts_with(input, 0x1e) ==> module_settings(
            record(0x31, four(source.text_offset as int)) + input,
        ) == rejects_at::<((u32, u32), (ModuleType, (bool, bool)))>(input),
        !starts_with(input, 0x2c) ==> module_settings(
            record(0x31, four(source.text_offset as int)) + (record(
                0x1e,
                four(source.help_context as int),
            ) + input),
        ) == rejects_at::<((u32, u32), (ModuleType, (bool, bool)))>(input),
        input.len() >= 2 && !starts_with(input, 0x21) && !starts_with(input, 0x22) ==> module_kind(
            input,
        ) == Err::<(Seq<u8>, (ModuleType, (bool, bool))), FormatError<Seq<u8>>>(
            FormatError::UnexpectedValue,
        ),
        !starts_with(input, 0x25) && !starts_with(input, 0x28) && !starts_with(input, 0x2b)
            ==> module_kind(
            record(0x21, Seq::empty()) + with_flag(
                0x25,
                source.is_read_only,
                with_flag(0x28, source.is_private, input),
            ),
        ) == rejects_at::<(ModuleType, (bool, bool))>(input),
{
    reveal(module_settings);
    reveal(module_kind);
    lemma_where_missing(input, 0x31);
    lemma_where_missing(input, 0x1e);
    lemma_where_missing(input, 0x2c);
    lemma_where_missing(input, 0x2b);
    let help_context = record(0x1e, four(source.help_context as int)) + input;
    lemma_u32_record(0x1e, source.help_context, input);
    lemma_u32_record(0x31, source.text_offset, input);
    lemma_u32_record(0x31, source.text_offset, help_context);
    if !starts_with(input, 0x25) && !starts_with(input, 0x28) {
        let private = with_flag(0x28, source.is_private, input);
        let read_only = with_flag(0x25, source.is_read_only, private);
        lemma_empty_record(0x28, input);
        lemma_flag(0x28, source.is_private, input);
        lemma_flag(0x25, source.is_read_only, private);
        lemma_empty_record(0x21, read_only);
        lemma_two(0x21, four(0) + read_only);
        lemma_four(0, read_only);
    }
}

/// Where a module's type and its flags are read, the input consists of their records and what is
/// left.
proof fn lemma_kind_is_there(input: Seq<u8>, source: ModuleSource)
    ensures
        module_kind(input) matches Ok((rest, (module_type, (read_only, private)))) ==> input
            == with_kind(
            ModuleSource {
                is_procedural: module_type == ModuleType::Procedural,
                is_read_only: read_only,
                is_private: private,
                ..source
            },
            rest,
        ),
{
    reveal(with_kind);
    reveal(module_kind);
    if let Ok((rest, (module_type, (read_only, private)))) = module_kind(input) {
        let id = u16_field(input)->Ok_0.1;
        let behind = module_type_record(input)->Ok_0.0;
        lemma_empty_record_is_there(input, id);
        lemma_empty_record_is_there(behind, 0x25);
        let behind = flag_record(behind, 0x25)->Ok_0.0;
        lemma_empty_record_is_there(behind, 0x28);
        let behind = flag_record(behind, 0x28)->Ok_0.0;
        lemma_empty_record_is_there(behind, 0x2b);
    }
}

/// Where a module is read, the input consists of its records and what is left, and it is read as
/// what they say.
pub proof fn lemma_module_is_there(input: Seq<u8>, code_page: u16)
    ensures
        module_record(input, code_page) matches Ok((rest, value)) ==> exists|source: ModuleSource|
            {
                &&& module_fits(source)
                &&& input == #[trigger] with_module(source, rest)
                &&& value == module_value(source, code_page)
            },
{
    if let Ok((rest, value)) = module_record(input, code_page) {
        reveal(module_record);
        reveal(module_name);
        reveal(text_records);
        reveal(module_settings);
        reveal(with_settings);
        lemma_record_is_there(input, 0x19);
        let (a, name) = data_record(input, 0x19)->Ok_0;
        lemma_record_is_there(a, 0x47);
        let (b, name_unicode): (Seq<u8>, Option<Seq<u8>>) = match data_record(a, 0x47) {
            Ok((behind, unicode)) => (behind, Some(unicode)),
            Err(_) => (a, None),
        };
        lemma_record_is_there(b, 0x1a);
        let (c, stream_name) = data_record(b, 0x1a)->Ok_0;
        lemma_record_is_there(c, 0x32);
        let (d, stream_name_unicode) = data_record(c, 0x32)->Ok_0;
        lemma_record_is_there(d, 0x1c);
        let (e, doc_string) = data_record(d, 0x1c)->Ok_0;
        lemma_record_is_there(e, 0x48);
        let (f, doc_string_unicode) = data_record(e, 0x48)->Ok_0;
        lemma_u32_record_is_there(f, 0x31);
        let (g, text_offset) = u32_record(f, 0x31)->Ok_0;
        lemma_u32_record_is_there(g, 0x1e);
        let (h, help_context) = u32_record(g, 0x1e)->Ok_0;
        lemma_u16_record_is_there(h, 0x2c);
        let (k, cookie) = u16_record(h, 0x2c)->Ok_0;
        let source = ModuleSource {
            name,
            name_unicode,
            stream_name,
            stream_name_unicode,
            doc_string,
            doc_string_unicode,
            text_offset,
            help_context,
            cookie,
            is_procedural: value.module_type == ModuleType::Procedural,
            is_read_only: value.read_only,
            is_private: value.private,
        };
        lemma_kind_is_there(k, source);
        assert(k == with_kind(source, rest));
        assert(f == with_settings(source, rest));
        assert(input == with_module(source, rest));
    }
}

/// The records of modules, in front of other bytes.
pub open spec fn with_modules(sources: Seq<ModuleSource>, rest: Seq<u8>) -> Seq<u8>
    decreases sources.len(),
{
    if sources.len() == 0 {
        rest
    } else {
        with_module(sources[0], with_modules(sources.skip(1), rest))
    }
}

/// Reading modules behind others gives them behind the others.
proof fn lemma_further_modules_are_read(
    sources: Seq<ModuleSource>,
    rest: Seq<u8>,
    code_page: u16,
    found: Seq<ModuleView>,
)
    requires
        forall|k: int| 0 <= k < sources.len() ==> module_fits(#[trigger] sources[k]),
    ensures
        modules_from(with_modules(sources, rest), code_page, sources.len() as int, found) == gives(
            rest,
            found + sources.map_values(|source: ModuleSource| module_value(source, code_page)),
        ),
    decreases sources.len(),
{
    let values = sources.map_values(|source: ModuleSource| module_value(source, code_page));
    if sources.len() == 0 {
        assert(found + values == found);
    } else {
        let behind = sources.skip(1);
        let others = behind.map_values(|source: ModuleSource| module_value(source, code_page));
        assert(module_fits(sources[0]));
        lemma_module_is_read(sources[0], with_modules(behind, rest), code_page);
        assert forall|k: int| 0 <= k < behind.len() implies module_fits(#[trigger] behind[k]) by {
            assert(module_fits(sources[k + 1]));
        }
        lemma_further_modules_are_read(
            behind,
            rest,
            code_page,
            found.push(module_value(sources[0], code_page)),
        );
        assert(found.push(module_value(sources[0], code_page)) + others == found + values);
    }
}

/// The records of all modules, behind their number and a cookie, in front of other bytes.
pub open spec fn with_all_modules(
    sources: Seq<ModuleSource>,
    cookie: u16,
    rest: Seq<u8>,
) -> Seq<u8> {
    record(0x0f, two(sources.len() as int)) + (record(0x13, two(cookie as int)) + with_modules(
        sources,
        rest,
    ))
}

/// All modules are read, in the order of their records, each as what its records say.
pub proof fn lemma_modules_are_read(
    sources: Seq<ModuleSource>,
    cookie: u16,
    rest: Seq<u8>,
    code_page: u16,
)
    requires
        sources.len() <= u16::MAX,
        forall|k: int| 0 <= k < sources.len() ==> module_fits(#[trigger] sources[k]),
    ensures
        modules(with_all_modules(sources, cookie, rest), code_page) == gives(
            rest,
            sources.map_values(|source: ModuleSource| module_value(source, code_page)),
        ),
        starts_with(with_all_modules(sources, cookie, rest), 0x0f),
{
    let records = with_modules(sources, rest);
    let values = sources.map_values(|source: ModuleSource| module_value(source, code_page));
    lemma_u16_record(0x13, cookie, records);
    lemma_u16_record(0x0f, sources.len() as u16, record(0x13, two(cookie as int)) + records);
    lemma_further_modules_are_read(sources, rest, code_page, Seq::empty());
    assert(Seq::<ModuleView>::empty() + values == values);
}

/// Whether each module of a list is read where the one before it ends, the first at the start of
/// the first input.
pub open spec fn are_listed(
    inputs: Seq<Seq<u8>>,
    list: Seq<ModuleView>,
    code_page: u16,
) -> bool {
    &&& inputs.len() == list.len() + 1
    &&& forall|k: int|
        0 <= k < list.len() ==> module_record(#[trigger] inputs[k], code_page) == gives(
            inputs[k + 1],
            list[k],
        )
}

/// Modules that are read behind others are listed behind the others.
proof fn lemma_further_modules_are_listed(
    input: Seq<u8>,
    code_page: u16,
    count: int,
    found: Seq<ModuleView>,
)
    requires
        0 <= count,
    ensures
        modules_from(input, code_page, count, found) matches Ok((rest, list)) ==> {
            &&& list.len() == found.len() + count
            &&& list.take(found.len() as int) == found
            &&& exists|inputs: Seq<Seq<u8>>|
                {
                    &&& #[trigger] are_listed(inputs, list.skip(found.len() as int), code_page)
                    &&& inputs[0] == input
                    &&& inputs[count] == rest
                }
        },
    decreases count,
{
    if let Ok((rest, list)) = modules_from(input, code_page, count, found) {
        if count == 0 {
            let inputs = seq![input];
            assert(found.take(found.len() as int) == found);
            assert(are_listed(inputs, list.skip(found.len() as int), code_page));
        } else {
            let (behind, module) = module_record(input, code_page)->Ok_0;
            lemma_further_modules_are_listed(behind, code_page, count - 1, found.push(module));
            let n = found.len() as int;
            let further = choose|inputs: Seq<Seq<u8>>|
                {
                    &&& #[trigger] are_listed(inputs, list.skip(n + 1), code_page)
                    &&& inputs[0] == behind
                    &&& inputs[count - 1] == rest
                };
            let inputs = seq![input] + further;
            assert(list.take(n + 1)[n] == module);
            assert(list.take(n) == list.take(n + 1).take(n));
            assert(found.push(module).take(n) == found);
            assert forall|k: int| 0 <= k < list.skip(n).len() implies module_record(
                #[trigger] inputs[k],
                code_page,
            ) == gives(inputs[k + 1], list.skip(n)[k]) by {
                if k > 0 {
                    assert(inputs[k] == further[k - 1]);
                    assert(inputs[k + 1] == further[k]);
                    assert(list.skip(n + 1)[k - 1] == list.skip(n)[k]);
                }
            }
            assert(are_listed(inputs, list.skip(n), code_page));
        }
    }
}

/// Where the modules are read, there are as many as the record in front of them says, and each is
/// what its records say, which start where those of the one before it end.
pub proof fn lemma_modules_are_listed(input: Seq<u8>, code_page: u16)
    ensures
        modules(input, code_page) matches Ok((rest, list)) ==> exists|
            inputs: Seq<Seq<u8>>,
            cookie: u16,
        |
            {
                &&& #[trigger] are_listed(inputs, list, code_page)
                &&& list.len() <= u16::MAX
                &&& input == #[trigger] with_count(list.len(), cookie, inputs[0])
                &&& inputs[list.len() as int] == rest
            },
{
    if let Ok((rest, list)) = modules(input, code_page) {
        let (behind, count) = u16_record(input, 0x0f)->Ok_0;
        let (first, cookie) = u16_record(behind, 0x13)->Ok_0;
        lemma_u16_record_is_there(input, 0x0f);
        lemma_u16_record_is_there(behind, 0x13);
        lemma_further_modules_are_listed(first, code_page, count as int, Seq::empty());
        assert(list.skip(0) == list);
        let inputs = choose|inputs: Seq<Seq<u8>>|
            {
                &&& #[trigger] are_listed(inputs, list, code_page)
                &&& inputs[0] == first
                &&& inputs[count as int] == rest
            };
        assert(input == with_count(list.len(), cookie, inputs[0]));
    }
}

/// The records of the number of modules and of a cookie, in front of other bytes.
pub open spec fn with_count(count: nat, cookie: u16, rest: Seq<u8>) -> Seq<u8> {
    record(0x0f, two(count as int)) + (record(0x13, two(cookie as int)) + rest)
}

/// The modules are rejected where one of them is.
pub proof fn lemma_bad_module_is_rejected(
    inputs: Seq<Seq<u8>>,
    list: Seq<ModuleView>,
    code_page: u16,
    count: u16,
    cookie: u16,
)
    requires
        are_listed(inputs, list, code_page),
        list.len() < count,
        module_record(inputs[list.len() as int], code_page) is Err,
    ensures
        modules(with_count(count as nat, cookie, inputs[0]), code_page) == Err::<
            (Seq<u8>, Seq<ModuleView>),
            FormatError<Seq<u8>>,
        >(module_record(inputs[list.len() as int], code_page)->Err_0),
{
    let behind = record(0x13, two(cookie as int)) + inputs[0];
    lemma_u16_record(0x13, cookie, inputs[0]);
    lemma_u16_record(0x0f, count, behind);
    lemma_bad_module_is_reached(inputs, list, code_page, count as int, 0, Seq::empty());
}

proof fn lemma_bad_module_is_reached(
    inputs: Seq<Seq<u8>>,
    list: Seq<ModuleView>,
    code_page: u16,
    count: int,
    from: int,
    found: Seq<ModuleView>,
)
    requires
        are_listed(inputs, list, code_page),
        0 <= from <= list.len() < from + count,
        module_record(inputs[list.len() as int], code_page) is Err,
    ensures
        modules_from(inputs[from], code_page, count, found) == Err::<
            (Seq<u8>, Seq<ModuleView>),
            FormatError<Seq<u8>>,
        >(module_record(inputs[list.len() as int], code_page)->Err_0),
    decreases list.len() - from,
{
    if from < list.len() {
        lemma_bad_module_is_reached(
            inputs,
            list,
            code_page,
            count - 1,
            from + 1,
            found.push(list[from]),
        );
    }
}

/// The records that a module was read from.
spec fn source_of(
    input: Seq<u8>,
    rest: Seq<u8>,
    value: ModuleView,
    code_page: u16,
) -> ModuleSource {
    choose|source: ModuleSource|
        {
            &&& module_fits(source)
            &&& input == #[trigger] with_module(source, rest)
            &&& value == module_value(source, code_page)
        }
}

/// Where modules are listed, the first input consists of their records and what is left.
pub proof fn lemma_listed_modules_are_there(
    inputs: Seq<Seq<u8>>,
    list: Seq<ModuleView>,
    code_page: u16,
)
    requires
        are_listed(inputs, list, code_page),
    ensures
        exists|sources: Seq<ModuleSource>|
            {
                &&& sources.len() == list.len()
                &&& inputs[0] == #[trigger] with_modules(sources, inputs[list.len() as int])
                &&& forall|k: int| 0 <= k < sources.len() ==> module_fits(#[trigger] sources[k])
                &&& forall|k: int|
                    0 <= k < sources.len() ==> module_value(#[trigger] sources[k], code_page)
                        == list[k]
            },
    decreases list.len(),
{
    let n = list.len() as int;
    if n == 0 {
        let sources = Seq::<ModuleSource>::empty();
        assert(inputs[0] == with_modules(sources, inputs[n]));
    } else {
        let (behind, others) = (inputs.skip(1), list.skip(1));
        assert forall|k: int| 0 <= k < others.len() implies module_record(
            #[trigger] behind[k],
            code_page,
        ) == gives(behind[k + 1], others[k]) by {
            assert(behind[k] == inputs[k + 1]);
        }
        lemma_listed_modules_are_there(behind, others, code_page);
        let further = choose|sources: Seq<ModuleSource>|
            {
                &&& sources.len() == others.len()
                &&& behind[0] == #[trigger] with_modules(sources, behind[others.len() as int])
                &&& forall|k: int| 0 <= k < sources.len() ==> module_fits(#[trigger] sources[k])
                &&& forall|k: int|
                    0 <= k < sources.len() ==> module_value(#[trigger] sources[k], code_page)
                        == others[k]
            };
        lemma_module_is_there(inputs[0], code_page);
        let first = source_of(inputs[0], inputs[1], list[0], code_page);
        let sources = seq![first] + further;
        assert(sources.skip(1) == further);
        assert(inputs[0] == with_modules(sources, inputs[n]));
        assert forall|k: int| 0 <= k < sources.len() implies module_fits(#[trigger] sources[k])
            && module_value(sources[k], code_page) == list[k] by {
            if k > 0 {
                assert(sources[k] == further[k - 1]);
            }
        }
    }
}

} // verus!
