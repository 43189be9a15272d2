//! What holds of all *dir* streams.

use vstd::prelude::*;

use crate::bytes::{data_record, le16, le32, u16_record, u32_record};
use crate::code_page::text_of;
use crate::dir_stream::{
    constants, header, information, numbers, project_information, texts, ProjectInformationView,
};
use crate::dropped::{
    agree, dropped, gives_same, kept, left, lemma_data_record, lemma_dropped_record,
    lemma_kept_is_shared, lemma_other_identifier, lemma_record_leaves_rest, lemma_share_split,
    lemma_shared_agrees, lemma_shared_identifier, lemma_six_bytes, lemma_split, lemma_starts_alike,
    lemma_two_records, lemma_u16_record, lemma_u32_record, share, start_alike, taken,
    two_records_mask,
};
use crate::format::FormatError;
use crate::information::InformationView;
use crate::module_laws::{lemma_modules_ignore_dropped, modules_mask};
use crate::reference_laws::{lemma_references_ignore_dropped, references_mask};
use crate::references::references;

verus! {

broadcast use {
    crate::bytes::lemma_data_record_size,
    crate::bytes::lemma_u16_record_size,
    crate::bytes::lemma_u32_record_size,
};

/// Which bytes of the records of the project's texts are dropped: the contents of the description
/// in UTF-16 and of the second copy of the path to the Help file.
#[verifier::opaque]
pub open spec fn texts_mask(input: Seq<u8>) -> Seq<bool> {
    let behind = input.skip(two_records_mask(input, 0x04, 0x05, false).len() as int);
    let unicode = taken(behind, data_record(behind, 0x40));
    two_records_mask(input, 0x04, 0x05, false) + (dropped(unicode) + two_records_mask(
        behind.skip(unicode),
        0x06,
        0x3d,
        true,
    ))
}

/// Which bytes of the records of the compilation constants are dropped: the contents of the
/// constants in UTF-16.
#[verifier::opaque]
pub open spec fn constants_mask(input: Seq<u8>) -> Seq<bool> {
    let found = data_record(input, 0x0c);
    let unicode = data_record(left(input, found), 0x3c);
    if found is Err {
        Seq::empty()
    } else if unicode is Err {
        kept(taken(input, found))
    } else {
        kept(taken(input, found)) + dropped(taken(left(input, found), unicode))
    }
}

/// The input behind the record of the project's version.
#[verifier::opaque]
pub open spec fn behind_version(input: Seq<u8>) -> Seq<u8> {
    let behind = left(input, header(input));
    let code_page = header(input)->Ok_0.1.1;
    left(left(behind, texts(behind, code_page)), numbers(left(behind, texts(behind, code_page))))
}

/// Which bytes of the version-independent information are dropped.
pub open spec fn information_mask(input: Seq<u8>) -> Seq<bool> {
    kept(taken(input, header(input))) + (texts_mask(left(input, header(input))) + (kept(32)
        + constants_mask(behind_version(input))))
}

/// The records in front of the project's texts depend on their own bytes alone.
proof fn lemma_header(a: Seq<u8>, b: Seq<u8>)
    requires
        header(a) is Ok,
        share(a, b, taken(a, header(a))),
    ensures
        0 <= taken(a, header(a)) <= a.len(),
        left(a, header(a)) == a.skip(taken(a, header(a))),
        gives_same(header(a), header(b), b.skip(taken(a, header(a)))),
{
    reveal(header);
    let n = taken(a, header(a));
    lemma_share_split(a, b, 10, n - 10);
    lemma_u32_record(a, b, 0x01);
    let (a1, b1) = (a.skip(10), b.skip(10));
    if u32_record(a1, 0x4a) is Ok {
        lemma_share_split(a1, b1, 10, n - 20);
        lemma_u32_record(a1, b1, 0x4a);
        lemma_locales(a1.skip(10), b1.skip(10));
        assert(a1.skip(10).skip(10).skip(10).skip(8) == a.skip(n));
        assert(b1.skip(10).skip(10).skip(10).skip(8) == b.skip(n));
    } else {
        lemma_shared_identifier(a1, b1, n - 10);
        lemma_locales(a1, b1);
        assert(u32_record(b1, 0x4a) is Err) by {
            reveal(u32_record);
        }
        assert(a1.skip(10).skip(10).skip(8) == a.skip(n));
        assert(b1.skip(10).skip(10).skip(8) == b.skip(n));
    }
}

/// The records of the locales and of the code page depend on their own bytes alone.
proof fn lemma_locales(a: Seq<u8>, b: Seq<u8>)
    requires
        u32_record(a, 0x02) is Ok,
        u32_record(left(a, u32_record(a, 0x02)), 0x14) is Ok,
        u16_record(
            left(left(a, u32_record(a, 0x02)), u32_record(left(a, u32_record(a, 0x02)), 0x14)),
            0x03,
        ) is Ok,
        share(a, b, 28),
    ensures
        le16(a) == 0x02,
        left(a, u32_record(a, 0x02)) == a.skip(10),
        gives_same(u32_record(a, 0x02), u32_record(b, 0x02), b.skip(10)),
        left(a.skip(10), u32_record(a.skip(10), 0x14)) == a.skip(10).skip(10),
        gives_same(
            u32_record(a.skip(10), 0x14),
            u32_record(b.skip(10), 0x14),
            b.skip(10).skip(10),
        ),
        left(a.skip(10).skip(10), u16_record(a.skip(10).skip(10), 0x03)) == a.skip(10).skip(
            10,
        ).skip(8),
        gives_same(
            u16_record(a.skip(10).skip(10), 0x03),
            u16_record(b.skip(10).skip(10), 0x03),
            b.skip(10).skip(10).skip(8),
        ),
{
    lemma_share_split(a, b, 10, 18);
    lemma_u32_record(a, b, 0x02);
    lemma_share_split(a.skip(10), b.skip(10), 10, 8);
    lemma_u32_record(a.skip(10), b.skip(10), 0x14);
    lemma_u16_record(a.skip(10).skip(10), b.skip(10).skip(10), 0x03);
}

/// The records of the project's texts stand behind one another.
proof fn lemma_text_chain(a: Seq<u8>, code_page: u16)
    requires
        texts(a, code_page) is Ok,
    ensures
        ({
            let n = two_records_mask(a, 0x04, 0x05, false).len() as int;
            let a2 = a.skip(n);
            let t3 = taken(a2, data_record(a2, 0x40));
            let a3 = a2.skip(t3);
            &&& data_record(a, 0x04) is Ok
            &&& data_record(left(a, data_record(a, 0x04)), 0x05) is Ok
            &&& left(
                left(a, data_record(a, 0x04)),
                data_record(left(a, data_record(a, 0x04)), 0x05),
            ) == a2
            &&& data_record(a2, 0x40) is Ok
            &&& left(a2, data_record(a2, 0x40)) == a3
            &&& data_record(a3, 0x06) is Ok
            &&& data_record(left(a3, data_record(a3, 0x06)), 0x3d) is Ok
        }),
{
    reveal(texts);
    let a1 = left(a, data_record(a, 0x04));
    lemma_record_leaves_rest(a, 0x04);
    lemma_record_leaves_rest(a1, 0x05);
    let n = two_records_mask(a, 0x04, 0x05, false).len() as int;
    assert(left(a1, data_record(a1, 0x05)) == a.skip(n));
    lemma_record_leaves_rest(a.skip(n), 0x40);
}

/// The records of the project's texts do not depend on dropped contents.
proof fn lemma_texts(a: Seq<u8>, b: Seq<u8>, code_page: u16)
    requires
        texts(a, code_page) is Ok,
        agree(a, b, texts_mask(a)),
    ensures
        taken(a, texts(a, code_page)) == texts_mask(a).len(),
        left(a, texts(a, code_page)) == a.skip(texts_mask(a).len() as int),
        gives_same(
            texts(a, code_page),
            texts(b, code_page),
            b.skip(texts_mask(a).len() as int),
        ),
{
    reveal(texts);
    reveal(texts_mask);
    let m1 = two_records_mask(a, 0x04, 0x05, false);
    let n1 = m1.len() as int;
    lemma_text_chain(a, code_page);
    let a2 = a.skip(n1);
    let t3 = taken(a2, data_record(a2, 0x40));
    let a3 = a2.skip(t3);
    let m3 = two_records_mask(a3, 0x06, 0x3d, true);
    lemma_two_records(a, b, 0x04, 0x05, false, dropped(t3) + m3);
    let b2 = b.skip(n1);
    lemma_split(a2, b2, dropped(t3), m3);
    lemma_dropped_record(a2, b2, 0x40);
    let b3 = b2.skip(t3);
    assert(m3 + Seq::<bool>::empty() == m3);
    lemma_two_records(a3, b3, 0x06, 0x3d, true, Seq::empty());
    assert(a3.skip(m3.len() as int) == a.skip(texts_mask(a).len() as int));
    assert(b3.skip(m3.len() as int) == b.skip(texts_mask(a).len() as int));
}

/// The records of the project's numbers depend on their own bytes alone.
proof fn lemma_numbers(a: Seq<u8>, b: Seq<u8>)
    requires
        numbers(a) is Ok,
        share(a, b, 32),
    ensures
        taken(a, numbers(a)) == 32,
        left(a, numbers(a)) == a.skip(32),
        gives_same(numbers(a), numbers(b), b.skip(32)),
{
    reveal(numbers);
    lemma_share_split(a, b, 10, 22);
    lemma_u32_record(a, b, 0x07);
    let (a1, b1) = (a.skip(10), b.skip(10));
    lemma_share_split(a1, b1, 10, 12);
    lemma_u32_record(a1, b1, 0x08);
    let (a2, b2) = (a1.skip(10), b1.skip(10));
    lemma_share_split(a2, b2, 10, 2);
    lemma_u32_record(a2, b2, 0x09);
    let (a3, b3) = (a2.skip(10), b2.skip(10));
    lemma_shared_identifier(a3, b3, 2);
    assert(a3.skip(2) == a.skip(32));
    assert(b3.skip(2) == b.skip(32));
}

/// The records of the compilation constants do not depend on dropped contents.
proof fn lemma_constants(a: Seq<u8>, b: Seq<u8>, code_page: u16)
    requires
        constants(a, code_page) is Ok,
        agree(a, b, constants_mask(a)),
        start_alike(a.skip(constants_mask(a).len() as int), b.skip(constants_mask(a).len() as int)),
        le16(a.skip(constants_mask(a).len() as int)) != 0x0c,
        le16(a.skip(constants_mask(a).len() as int)) != 0x3c,
    ensures
        left(a, constants(a, code_page)) == a.skip(constants_mask(a).len() as int),
        gives_same(
            constants(a, code_page),
            constants(b, code_page),
            b.skip(constants_mask(a).len() as int),
        ),
{
    reveal(constants);
    reveal(constants_mask);
    let n = constants_mask(a).len() as int;
    if data_record(a, 0x0c) is Err {
        assert(a.skip(0) == a && b.skip(0) == b);
        lemma_other_identifier(b, 0x0c);
    } else {
        let t1 = taken(a, data_record(a, 0x0c));
        let a1 = left(a, data_record(a, 0x0c));
        if data_record(a1, 0x3c) is Err {
            lemma_kept_is_shared(a, b, t1);
            lemma_data_record(a, b, 0x0c);
            lemma_other_identifier(b.skip(t1), 0x3c);
        } else {
            let t2 = taken(a1, data_record(a1, 0x3c));
            lemma_split(a, b, kept(t1), dropped(t2));
            lemma_kept_is_shared(a, b, t1);
            lemma_data_record(a, b, 0x0c);
            lemma_dropped_record(a1, b.skip(t1), 0x3c);
            assert(a1.skip(t2) == a.skip(n));
            assert(b.skip(t1).skip(t2) == b.skip(n));
        }
    }
}

/// The version-independent information leaves what stands behind it.
proof fn lemma_information_leaves_rest(a: Seq<u8>)
    requires
        information(a) is Ok,
    ensures
        left(a, information(a)) == a.skip(information_mask(a).len() as int),
        information_mask(a).len() <= a.len(),
{
    reveal(information);
    lemma_version_end(a);
    let code_page = header(a)->Ok_0.1.1;
    assert(share(a, a, version_end(a))) by {
        reveal(share);
    }
    lemma_up_to_version(a, a);
    let behind = behind_version(a);
    assert(left(behind, constants(behind, code_page)) == behind.skip(
        constants_mask(behind).len() as int,
    ) && constants_mask(behind).len() <= behind.len()) by {
        reveal(constants);
        reveal(constants_mask);
        lemma_record_leaves_rest(behind, 0x0c);
        let further = left(behind, data_record(behind, 0x0c));
        lemma_record_leaves_rest(further, 0x3c);
        assert(behind.skip(0) == behind);
    }
    let a1 = left(a, header(a));
    lemma_texts_size(a1, code_page);
    assert(0 <= taken(a, header(a)) <= a.len()) by {
        reveal(header);
    }
    let a2 = left(a1, texts(a1, code_page));
    assert(taken(a2, numbers(a2)) == 32) by {
        reveal(numbers);
    }
    assert(version_end(a) + constants_mask(behind).len() == information_mask(a).len());
    assert(a.skip(version_end(a)).skip(constants_mask(behind).len() as int) == a.skip(
        information_mask(a).len() as int,
    ));
}

/// The version-independent information does not depend on dropped contents.
proof fn lemma_information(a: Seq<u8>, b: Seq<u8>)
    requires
        information(a) is Ok,
        agree(a, b, information_mask(a)),
        start_alike(
            a.skip(information_mask(a).len() as int),
            b.skip(information_mask(a).len() as int),
        ),
        le16(a.skip(information_mask(a).len() as int)) != 0x0c,
        le16(a.skip(information_mask(a).len() as int)) != 0x3c,
    ensures
        left(a, information(a)) == a.skip(information_mask(a).len() as int),
        gives_same(information(a), information(b), b.skip(information_mask(a).len() as int)),
{
    reveal(information);
    let n = information_mask(a).len() as int;
    let t1 = taken(a, header(a));
    let a1 = left(a, header(a));
    let code_page = header(a)->Ok_0.1.1;
    let m3 = constants_mask(behind_version(a));
    let m2 = kept(32) + m3;
    let m1 = texts_mask(a1) + m2;
    assert(taken(a, header(a)) >= 0) by {
        reveal(header);
    }
    lemma_split(a, b, kept(t1), m1);
    lemma_kept_is_shared(a, b, t1);
    lemma_header(a, b);
    let b1 = b.skip(t1);
    lemma_split(a1, b1, texts_mask(a1), m2);
    lemma_texts(a1, b1, code_page);
    let t2 = texts_mask(a1).len() as int;
    let (a2, b2) = (a1.skip(t2), b1.skip(t2));
    lemma_split(a2, b2, kept(32), m3);
    lemma_kept_is_shared(a2, b2, 32);
    lemma_numbers(a2, b2);
    let (a3, b3) = (a2.skip(32), b2.skip(32));
    let t4 = m3.len() as int;
    assert(a3.skip(t4) == a.skip(n));
    assert(b3.skip(t4) == b.skip(n));
    assert(behind_version(a) == a3) by {
        reveal(behind_version);
    }
    lemma_constants(a3, b3, code_page);
}

/// The bytes of a record of variable size.
pub open spec fn data_record_bytes(id: u16, data: Seq<u8>) -> Seq<u8> {
    seq![
        (id % 0x100) as u8,
        (id / 0x100) as u8,
        (data.len() % 0x100) as u8,
        (data.len() / 0x100 % 0x100) as u8,
        (data.len() / 0x1_0000 % 0x100) as u8,
        (data.len() / 0x100_0000 % 0x100) as u8,
    ] + data
}

/// A record of variable size is read from its bytes.
pub proof fn lemma_data_record_is_read(id: u16, data: Seq<u8>, rest: Seq<u8>)
    requires
        data.len() <= u32::MAX,
    ensures
        data_record(data_record_bytes(id, data) + rest, id) == Ok::<
            (Seq<u8>, Seq<u8>),
            FormatError<Seq<u8>>,
        >((rest, data)),
{
    reveal(data_record);
    let input = data_record_bytes(id, data) + rest;
    assert(le16(input) == id);
    assert(le32(input.skip(2)) == data.len());
    assert(input.skip(2).skip(4).skip(data.len() as int) == rest);
    assert(input.skip(2).skip(4).take(data.len() as int) == data);
}

/// The records of the project's texts take up as many bytes as their mask covers.
proof fn lemma_texts_size(a: Seq<u8>, code_page: u16)
    requires
        texts(a, code_page) is Ok,
    ensures
        0 <= taken(a, texts(a, code_page)) <= a.len(),
        taken(a, texts(a, code_page)) == texts_mask(a).len(),
{
    reveal(texts);
    reveal(texts_mask);
    lemma_text_chain(a, code_page);
}

/// The position behind the record of the project's version.
pub open spec fn version_end(input: Seq<u8>) -> int {
    input.len() - behind_version(input).len()
}

/// A *dir* stream to which records of compilation constants are added behind the record of the
/// project's version.
pub open spec fn with_constants(input: Seq<u8>, constants: Seq<u8>, unicode: Seq<u8>) -> Seq<u8> {
    input.take(version_end(input)) + (data_record_bytes(0x0c, constants) + (data_record_bytes(
        0x3c,
        unicode,
    ) + input.skip(version_end(input))))
}

/// The information up to the project's version does not depend on what stands behind it.
proof fn lemma_up_to_version(a: Seq<u8>, b: Seq<u8>)
    requires
        information(a) is Ok,
        share(a, b, version_end(a)),
    ensures
        0 <= version_end(a) <= a.len(),
        ({
            let code_page = header(a)->Ok_0.1.1;
            let (a1, b1) = (left(a, header(a)), left(b, header(b)));
            let (a2, b2) = (left(a1, texts(a1, code_page)), left(b1, texts(b1, code_page)));
            &&& gives_same(header(a), header(b), b1)
            &&& gives_same(texts(a1, code_page), texts(b1, code_page), b2)
            &&& gives_same(numbers(a2), numbers(b2), b.skip(version_end(a)))
            &&& left(a2, numbers(a2)) == behind_version(a)
            &&& behind_version(a) == a.skip(version_end(a))
            &&& constants(behind_version(a), code_page) is Ok
            &&& information(a)->Ok_0.1.constants == constants(
                behind_version(a),
                code_page,
            )->Ok_0.1
            &&& left(a, information(a)) == left(
                behind_version(a),
                constants(behind_version(a), code_page),
            )
        }),
{
    reveal(information);
    reveal(behind_version);
    let code_page = header(a)->Ok_0.1.1;
    let t1 = taken(a, header(a));
    let a1 = left(a, header(a));
    let t2 = taken(a1, texts(a1, code_page));
    let a2 = left(a1, texts(a1, code_page));
    assert(0 <= t1 <= a.len()) by {
        reveal(header);
    }
    lemma_texts_size(a1, code_page);
    assert(taken(a2, numbers(a2)) == 32) by {
        reveal(numbers);
    }
    lemma_share_split(a, b, t1, t2 + 32);
    lemma_header(a, b);
    let b1 = b.skip(t1);
    lemma_share_split(a1, b1, t2, 32);
    lemma_shared_agrees(a1, b1, t2, texts_mask(a1));
    lemma_texts(a1, b1, code_page);
    lemma_numbers(a2, b1.skip(t2));
    assert(a1.skip(t2).skip(32) == a.skip(version_end(a)));
    assert(b1.skip(t2).skip(32) == b.skip(version_end(a)));
}

/// The position behind the record of the project's version lies within the input.
proof fn lemma_version_end(input: Seq<u8>)
    requires
        information(input) is Ok,
    ensures
        0 <= version_end(input) <= input.len(),
{
    reveal(information);
    reveal(behind_version);
    let behind = left(input, header(input));
    let code_page = header(input)->Ok_0.1.1;
    assert(0 <= taken(input, header(input)) <= input.len()) by {
        reveal(header);
    }
    lemma_texts_size(behind, code_page);
    assert(numbers(left(behind, texts(behind, code_page))) is Ok);
    reveal(numbers);
}

/// Adding records of compilation constants to a *dir* stream that has none changes nothing but the
/// constants that are read from it.
pub proof fn lemma_constants_can_be_added(input: Seq<u8>, constants: Seq<u8>, unicode: Seq<u8>)
    requires
        project_information(input) is Ok,
        project_information(input)->Ok_0.1.information.constants is None,
        constants.len() <= u32::MAX,
        unicode.len() <= u32::MAX,
    ensures
        ({
            let (rest, project) = project_information(input)->Ok_0;
            project_information(with_constants(input, constants, unicode)) == Ok::<
                (Seq<u8>, ProjectInformationView),
                FormatError<Seq<u8>>,
            >(
                (
                    rest,
                    ProjectInformationView {
                        information: InformationView {
                            constants: Some(text_of(project.information.code_page, constants)),
                            ..project.information
                        },
                        ..project
                    },
                ),
            )
        }),
{
    reveal(project_information);
    let longer = with_constants(input, constants, unicode);
    let at = version_end(input);
    let rest = input.skip(at);
    let code_page = header(input)->Ok_0.1.1;
    lemma_version_end(input);
    assert(share(input, longer, at)) by {
        reveal(share);
    }
    lemma_up_to_version(input, longer);
    let unicode_record = data_record_bytes(0x3c, unicode) + rest;
    let records = data_record_bytes(0x0c, constants) + unicode_record;
    assert(longer.skip(at) == records);
    lemma_data_record_is_read(0x0c, constants, unicode_record);
    lemma_data_record_is_read(0x3c, unicode, rest);
    assert(left(rest, self::constants(rest, code_page)) == rest) by {
        reveal(self::constants);
    }
    assert(self::constants(records, code_page) == Ok::<
        (Seq<u8>, Option<Seq<char>>),
        FormatError<Seq<u8>>,
    >((rest, Some(text_of(code_page, constants))))) by {
        reveal(self::constants);
    }
    assert(information(longer) == Ok::<(Seq<u8>, InformationView), FormatError<Seq<u8>>>(
        (
            rest,
            InformationView {
                constants: Some(text_of(code_page, constants)),
                ..information(input)->Ok_0.1
            },
        ),
    )) by {
        reveal(information);
    }
    assert(information(input)->Ok_0.1.code_page == code_page) by {
        reveal(information);
    }
}

/// Which bytes of a *dir* stream are dropped: the contents of the description in UTF-16, of the
/// second copy of the path to the Help file, of the compilation constants in UTF-16, of the names
/// of references in UTF-16, of the texts of modules in UTF-16, and the cookies of the project and
/// of its modules.
pub open spec fn project_mask(input: Seq<u8>) -> Seq<bool> {
    let code_page = information(input)->Ok_0.1.code_page;
    let behind = left(input, information(input));
    let further = left(behind, references(behind, code_page));
    information_mask(input) + (references_mask(behind, code_page) + (modules_mask(
        further,
        code_page,
    ) + kept(6)))
}

/// What is read from a *dir* stream does not depend on dropped contents: two *dir* streams that
/// agree in all other bytes are read alike.
pub proof fn lemma_project_ignores_dropped(a: Seq<u8>, b: Seq<u8>)
    requires
        project_information(a) is Ok,
        agree(a, b, project_mask(a)),
    ensures
        left(a, project_information(a)) == a.skip(project_mask(a).len() as int),
        gives_same(
            project_information(a),
            project_information(b),
            b.skip(project_mask(a).len() as int),
        ),
{
    reveal(project_information);
    let code_page = information(a)->Ok_0.1.code_page;
    let m1 = information_mask(a);
    let n1 = m1.len() as int;
    let a1 = left(a, information(a));
    let m2 = references_mask(a1, code_page);
    let n2 = m2.len() as int;
    let a2 = left(a1, references(a1, code_page));
    let m3 = modules_mask(a2, code_page);
    let n3 = m3.len() as int;
    let n = project_mask(a).len() as int;
    lemma_split(a, b, m1, m2 + (m3 + kept(6)));
    lemma_information_leaves_rest(a);
    let b1 = b.skip(n1);
    assert(m3.len() >= 16 && !m3[0] && !m3[1]) by {
        reveal(modules_mask);
    }
    lemma_references_ignore_dropped(a1, b1, code_page, m3 + kept(6));
    lemma_starts_alike(a1, b1, m2 + (m3 + kept(6)));
    lemma_information(a, b);
    let b2 = b1.skip(n2);
    lemma_split(a1, b1, m2, m3 + kept(6));
    lemma_split(a2, b2, m3, kept(6));
    lemma_modules_ignore_dropped(a2, b2, code_page);
    let (a3, b3) = (a2.skip(n3), b2.skip(n3));
    lemma_kept_is_shared(a3, b3, 6);
    lemma_six_bytes(a3, b3);
    assert(a3.skip(6) == a.skip(n));
    assert(b3.skip(6) == b.skip(n));
}

} // verus!
