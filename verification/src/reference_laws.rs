//! What holds of the records of all references.

use vstd::prelude::*;

use crate::bytes::{data_record, le16, le32};
use crate::code_page::text_of;
use crate::dropped::{
    agree, gives_same, kept, left, lemma_data_record, lemma_kept_is_shared, lemma_other_identifier,
    lemma_record_leaves_rest, lemma_share_split, lemma_shared_identifier, lemma_six_bytes,
    lemma_split, lemma_starts_alike, lemma_two_records, share, start_alike, taken, two_records_mask,
};
use crate::references::{
    control_record, extended_record, lemma_reference_takes_input, name_pair, nested_record,
    project_fields, reference, reference_name, references, references_from, registered_record,
    reserved, unnamed_reference, ReferenceView,
};

verus! {

broadcast use crate::bytes::lemma_data_record_size;

/// Which bytes of the record of a reference's name are dropped: the name in UTF-16.
#[verifier::opaque]
pub open spec fn name_mask(input: Seq<u8>) -> Seq<bool> {
    if name_pair(input) is Ok {
        two_records_mask(input, 0x16, 0x3e, true)
    } else {
        Seq::empty()
    }
}

/// Which bytes of the records of a twiddled type library and its extended type library are dropped.
#[verifier::opaque]
pub open spec fn control_mask(input: Seq<u8>) -> Seq<bool> {
    let twiddled = taken(input, nested_record(input, 0x2f)) + 6;
    let behind = input.skip(twiddled);
    let further = behind.skip(name_mask(behind).len() as int);
    kept(twiddled) + (name_mask(behind) + kept(taken(further, nested_record(further, 0x30)) + 26))
}

/// Which bytes of a reference without its name are dropped.
#[verifier::opaque]
pub open spec fn unnamed_mask(input: Seq<u8>, code_page: u16) -> Seq<bool> {
    if le16(input) == 0x2f {
        control_mask(input)
    } else {
        kept(taken(input, unnamed_reference(input, code_page, None)))
    }
}

/// Which bytes of a reference are dropped.
#[verifier::opaque]
pub open spec fn reference_mask(input: Seq<u8>, code_page: u16) -> Seq<bool> {
    name_mask(input) + unnamed_mask(input.skip(name_mask(input).len() as int), code_page)
}

/// Which bytes of the references up to their end are dropped.
pub open spec fn references_mask(input: Seq<u8>, code_page: u16) -> Seq<bool>
    decreases input.len(),
{
    proof {
        lemma_reference_takes_input(input, code_page);
    }
    match reference(input, code_page) {
        Ok((rest, Some(_))) => reference_mask(input, code_page) + references_mask(rest, code_page),
        Ok((_, None)) => reference_mask(input, code_page),
        Err(_) => Seq::empty(),
    }
}

/// A record that holds data with a size of its own depends on its own bytes alone.
proof fn lemma_nested_record(a: Seq<u8>, b: Seq<u8>, id: u16)
    requires
        nested_record(a, id) is Ok,
        share(a, b, taken(a, nested_record(a, id))),
    ensures
        10 <= taken(a, nested_record(a, id)) <= a.len(),
        left(a, nested_record(a, id)) == a.skip(taken(a, nested_record(a, id))),
        gives_same(
            nested_record(a, id),
            nested_record(b, id),
            b.skip(taken(a, nested_record(a, id))),
        ),
{
    let n = taken(a, nested_record(a, id));
    lemma_share_split(a, b, 6, n - 6);
    lemma_six_bytes(a, b);
    let (a1, b1) = (a.skip(6), b.skip(6));
    lemma_share_split(a1, b1, 4, n - 10);
    reveal(share);
    assert(le32(a1) == le32(b1));
    assert(a1.skip(4).take(n - 10) == b1.skip(4).take(n - 10));
}

/// The sizes of the parts of a record that holds data with a size of its own.
proof fn lemma_nested_leaves_rest(input: Seq<u8>, id: u16)
    ensures
        nested_record(input, id) is Ok ==> {
            &&& 10 <= taken(input, nested_record(input, id)) <= input.len()
            &&& le16(input) == id
            &&& left(input, nested_record(input, id)) == input.skip(
                taken(input, nested_record(input, id)),
            )
        },
{
    if nested_record(input, id) is Ok {
        let n = taken(input, nested_record(input, id));
        assert(input.skip(2).skip(4).skip(4).skip(n - 10) == input.skip(n));
    }
}

/// Six bytes that are reserved leave what stands behind them.
proof fn lemma_reserved_leaves_rest(input: Seq<u8>)
    ensures
        reserved(input) is Ok ==> input.len() >= 6 && left(input, reserved(input)) == input.skip(6),
{
    if reserved(input) is Ok {
        assert(input.skip(4).skip(2) == input.skip(6));
    }
}

/// Six bytes that are reserved depend on themselves alone.
proof fn lemma_reserved(a: Seq<u8>, b: Seq<u8>)
    requires
        reserved(a) is Ok,
        share(a, b, 6),
    ensures
        left(a, reserved(a)) == a.skip(6),
        gives_same(reserved(a), reserved(b), b.skip(6)),
{
    lemma_share_split(a, b, 6, 0);
    lemma_six_bytes(a, b);
}

/// The record of an Automation type library depends on its own bytes alone.
proof fn lemma_registered(a: Seq<u8>, b: Seq<u8>, code_page: u16)
    requires
        registered_record(a, code_page) is Ok,
        share(a, b, taken(a, registered_record(a, code_page))),
    ensures
        16 <= taken(a, registered_record(a, code_page)) <= a.len(),
        left(a, registered_record(a, code_page)) == a.skip(
            taken(a, registered_record(a, code_page)),
        ),
        gives_same(
            registered_record(a, code_page),
            registered_record(b, code_page),
            b.skip(taken(a, registered_record(a, code_page))),
        ),
{
    let n = taken(a, nested_record(a, 0x0d));
    lemma_nested_leaves_rest(a, 0x0d);
    lemma_reserved_leaves_rest(a.skip(n));
    lemma_share_split(a, b, n, 6);
    lemma_nested_record(a, b, 0x0d);
    lemma_reserved(a.skip(n), b.skip(n));
}

/// The fields of the record of an external project depend on their own bytes alone.
proof fn lemma_project_fields(a: Seq<u8>, b: Seq<u8>)
    requires
        project_fields(a) is Ok,
        share(a, b, taken(a, project_fields(a))),
    ensures
        20 <= taken(a, project_fields(a)) <= a.len(),
        left(a, project_fields(a)) == a.skip(taken(a, project_fields(a))),
        gives_same(
            project_fields(a),
            project_fields(b),
            b.skip(taken(a, project_fields(a))),
        ),
{
    let all = taken(a, project_fields(a));
    let n = taken(a, nested_record(a, 0x0e));
    lemma_nested_leaves_rest(a, 0x0e);
    let a1 = a.skip(n);
    let size = le32(a1) as int;
    lemma_share_split(a, b, n, all - n);
    lemma_nested_record(a, b, 0x0e);
    let b1 = b.skip(n);
    lemma_share_split(a1, b1, 4, size + 6);
    let (a2, b2) = (a1.skip(4), b1.skip(4));
    lemma_share_split(a2, b2, size, 6);
    let (a3, b3) = (a2.skip(size), b2.skip(size));
    lemma_share_split(a3, b3, 4, 2);
    reveal(share);
    assert(le32(a1) == le32(b1));
    assert(a2.take(size) == b2.take(size));
    assert(le32(a3) == le32(b3));
    assert(le16(a3.skip(4)) == le16(b3.skip(4)));
    assert(a3.skip(4).skip(2) == a.skip(all));
    assert(b3.skip(4).skip(2) == b.skip(all));
}

/// A reference without its name depends on its own bytes alone, where it is not of a twiddled type
/// library.
proof fn lemma_plain_reference(
    a: Seq<u8>,
    b: Seq<u8>,
    code_page: u16,
    name: Option<Seq<char>>,
)
    requires
        unnamed_reference(a, code_page, name) is Ok,
        start_alike(a, b),
        le16(a) != 0x2f,
        share(a, b, taken(a, unnamed_reference(a, code_page, None))),
    ensures
        ({
            let n = taken(a, unnamed_reference(a, code_page, None));
            &&& n == 0 || 6 <= n <= a.len()
            &&& left(a, unnamed_reference(a, code_page, name)) == a.skip(n)
            &&& gives_same(
                unnamed_reference(a, code_page, name),
                unnamed_reference(b, code_page, name),
                b.skip(n),
            )
        }),
{
    if le16(a) == 0x33 {
        lemma_data_record(a, b, 0x33);
    } else if le16(a) == 0x0d {
        lemma_registered(a, b, code_page);
    } else if le16(a) == 0x0e {
        lemma_project_fields(a, b);
    } else {
        assert(a.skip(0) == a && b.skip(0) == b);
    }
}

/// The record of a reference's name does not depend on the name in UTF-16.
proof fn lemma_reference_name(a: Seq<u8>, b: Seq<u8>, code_page: u16, further: Seq<bool>)
    requires
        reference_name(a, code_page) is Ok,
        agree(a, b, name_mask(a) + further),
        further.len() >= 2,
        !further[0],
        !further[1],
        name_pair(a) is Err ==> le16(a) != 0x16,
    ensures
        left(a, reference_name(a, code_page)) == a.skip(name_mask(a).len() as int),
        gives_same(
            reference_name(a, code_page),
            reference_name(b, code_page),
            b.skip(name_mask(a).len() as int),
        ),
        agree(a.skip(name_mask(a).len() as int), b.skip(name_mask(a).len() as int), further),
        name_mask(a).len() + further.len() <= a.len(),
        name_mask(a).len() + further.len() <= b.len(),
{
    reveal(name_mask);
    lemma_split(a, b, name_mask(a), further);
    if name_pair(a) is Ok {
        lemma_two_records(a, b, 0x16, 0x3e, true, further);
    } else {
        assert(a.skip(0) == a && b.skip(0) == b);
        lemma_starts_alike(a, b, further);
        lemma_other_identifier(b, 0x16);
    }
}

/// What is left behind the record of a reference's name.
proof fn lemma_name_leaves_rest(input: Seq<u8>, code_page: u16)
    requires
        reference_name(input, code_page) is Ok,
    ensures
        left(input, reference_name(input, code_page)) == input.skip(name_mask(input).len() as int),
        name_mask(input).len() <= input.len(),
        name_pair(input) is Err ==> name_mask(input).len() == 0,
{
    reveal(name_mask);
    if name_pair(input) is Ok {
        lemma_record_leaves_rest(input, 0x16);
        let behind = left(input, data_record(input, 0x16));
        lemma_record_leaves_rest(behind, 0x3e);
        assert(left(behind, data_record(behind, 0x3e)) == input.skip(
            name_mask(input).len() as int,
        ));
    } else {
        assert(input.skip(0) == input);
    }
}

/// The record of an extended type library takes up 26 bytes more than its type library.
proof fn lemma_extended_size(
    input: Seq<u8>,
    code_page: u16,
    original: Option<Seq<char>>,
    twiddled: Seq<char>,
    name: Option<Seq<char>>,
)
    requires
        extended_record(input, code_page, original, twiddled, name) is Ok,
    ensures
        nested_record(input, 0x30) is Ok,
        ({
            let t = taken(input, nested_record(input, 0x30));
            &&& 10 <= t
            &&& t + 26 <= input.len()
            &&& le16(input) == 0x30
            &&& left(input, nested_record(input, 0x30)) == input.skip(t)
            &&& reserved(input.skip(t)) is Ok
            &&& left(input, extended_record(input, code_page, original, twiddled, name))
                == input.skip(t + 26)
        }),
{
    reveal(extended_record);
    lemma_nested_leaves_rest(input, 0x30);
    let t = taken(input, nested_record(input, 0x30));
    lemma_reserved_leaves_rest(input.skip(t));
    assert(input.skip(t).skip(6).skip(16).skip(4) == input.skip(t + 26));
}

/// The record of an extended type library depends on its own bytes alone.
proof fn lemma_extended(
    a: Seq<u8>,
    b: Seq<u8>,
    code_page: u16,
    original: Option<Seq<char>>,
    twiddled: Seq<char>,
    name: Option<Seq<char>>,
)
    requires
        extended_record(a, code_page, original, twiddled, name) is Ok,
        share(a, b, taken(a, nested_record(a, 0x30)) + 26),
    ensures
        gives_same(
            extended_record(a, code_page, original, twiddled, name),
            extended_record(b, code_page, original, twiddled, name),
            b.skip(taken(a, nested_record(a, 0x30)) + 26),
        ),
{
    reveal(extended_record);
    lemma_extended_size(a, code_page, original, twiddled, name);
    let t = taken(a, nested_record(a, 0x30));
    lemma_share_split(a, b, t, 26);
    lemma_nested_record(a, b, 0x30);
    let (a1, b1) = (a.skip(t), b.skip(t));
    lemma_share_split(a1, b1, 6, 20);
    lemma_reserved(a1, b1);
    let (a2, b2) = (a1.skip(6), b1.skip(6));
    lemma_share_split(a2, b2, 16, 4);
    reveal(share);
    assert(a2.take(16) == b2.take(16));
    assert(le32(a2.skip(16)) == le32(b2.skip(16)));
    assert(b2.skip(16).skip(4) == b.skip(t + 26));
}

/// The records of a twiddled type library and its extended type library stand behind one another.
proof fn lemma_control_chain(a: Seq<u8>, code_page: u16)
    requires
        control_record(a, code_page) is Ok,
        le16(a) == 0x2f,
    ensures
        ({
            let t = taken(a, nested_record(a, 0x2f));
            let a1 = a.skip(t + 6);
            let a2 = a1.skip(name_mask(a1).len() as int);
            let twiddled = text_of(code_page, nested_record(a, 0x2f)->Ok_0.1);
            &&& nested_record(a, 0x2f) is Ok
            &&& 10 <= t
            &&& t + 6 <= a.len()
            &&& left(a, nested_record(a, 0x2f)) == a.skip(t)
            &&& reserved(a.skip(t)) is Ok
            &&& left(a.skip(t), reserved(a.skip(t))) == a1
            &&& reference_name(a1, code_page) is Ok
            &&& left(a1, reference_name(a1, code_page)) == a2
            &&& name_pair(a1) is Err ==> le16(a1) != 0x16
            &&& extended_record(
                a2,
                code_page,
                None,
                twiddled,
                reference_name(a1, code_page)->Ok_0.1,
            ) is Ok
            &&& control_record(a, code_page) == extended_record(
                a2,
                code_page,
                None,
                twiddled,
                reference_name(a1, code_page)->Ok_0.1,
            )
        }),
{
    reveal(control_record);
    lemma_nested_leaves_rest(a, 0x2f);
    let t = taken(a, nested_record(a, 0x2f));
    lemma_reserved_leaves_rest(a.skip(t));
    let a1 = a.skip(t + 6);
    assert(a.skip(t).skip(6) == a1);
    lemma_name_leaves_rest(a1, code_page);
    let a2 = a1.skip(name_mask(a1).len() as int);
    lemma_extended_size(
        a2,
        code_page,
        None,
        text_of(code_page, nested_record(a, 0x2f)->Ok_0.1),
        reference_name(a1, code_page)->Ok_0.1,
    );
    if name_pair(a1) is Err {
        assert(a1.skip(0) == a1);
    }
}

/// The records of a twiddled type library and its extended type library, as they follow one
/// another.
proof fn lemma_control_parts(input: Seq<u8>, code_page: u16, twiddled: Seq<u8>, behind: Seq<u8>)
    requires
        start_alike(input, input),
        le16(input) == 0x2f,
        nested_record(input, 0x2f) is Ok,
        nested_record(input, 0x2f)->Ok_0.1 == twiddled,
        reserved(left(input, nested_record(input, 0x2f))) is Ok,
        left(
            left(input, nested_record(input, 0x2f)),
            reserved(left(input, nested_record(input, 0x2f))),
        ) == behind,
        reference_name(behind, code_page) is Ok,
    ensures
        control_record(input, code_page) == extended_record(
            left(behind, reference_name(behind, code_page)),
            code_page,
            None,
            text_of(code_page, twiddled),
            reference_name(behind, code_page)->Ok_0.1,
        ),
{
    reveal(control_record);
}

/// The records of a twiddled type library and its extended type library do not depend on dropped
/// contents.
#[verifier::rlimit(40)]
proof fn lemma_control(a: Seq<u8>, b: Seq<u8>, code_page: u16)
    requires
        control_record(a, code_page) is Ok,
        le16(a) == 0x2f,
        agree(a, b, control_mask(a)),
    ensures
        16 <= control_mask(a).len(),
        !control_mask(a)[0],
        !control_mask(a)[1],
        left(a, control_record(a, code_page)) == a.skip(control_mask(a).len() as int),
        gives_same(
            control_record(a, code_page),
            control_record(b, code_page),
            b.skip(control_mask(a).len() as int),
        ),
{
    reveal(control_mask);
    lemma_control_chain(a, code_page);
    let t = taken(a, nested_record(a, 0x2f));
    let a1 = a.skip(t + 6);
    let m1 = name_mask(a1);
    let a2 = a1.skip(m1.len() as int);
    let twiddled = text_of(code_page, nested_record(a, 0x2f)->Ok_0.1);
    let name = reference_name(a1, code_page)->Ok_0.1;
    lemma_extended_size(a2, code_page, None, twiddled, name);
    let te = taken(a2, nested_record(a2, 0x30)) + 26;
    lemma_split(a, b, kept(t + 6), m1 + kept(te));
    lemma_kept_is_shared(a, b, t + 6);
    lemma_share_split(a, b, t, 6);
    lemma_nested_record(a, b, 0x2f);
    lemma_reserved(a.skip(t), b.skip(t));
    let b1 = b.skip(t + 6);
    lemma_shared_identifier(a, b, t);
    lemma_reference_name(a1, b1, code_page, kept(te));
    let b2 = b1.skip(m1.len() as int);
    lemma_kept_is_shared(a2, b2, te);
    lemma_extended(a2, b2, code_page, None, twiddled, name);
    lemma_control_parts(b, code_page, nested_record(a, 0x2f)->Ok_0.1, b1);
    let n = control_mask(a).len() as int;
    assert(a2.skip(te) == a.skip(n));
    assert(b2.skip(te) == b.skip(n));
}

/// A reference without its name does not depend on dropped contents.
proof fn lemma_unnamed(
    a: Seq<u8>,
    b: Seq<u8>,
    code_page: u16,
    name: Option<Seq<char>>,
    further: Seq<bool>,
)
    requires
        unnamed_reference(a, code_page, name) is Ok,
        agree(a, b, unnamed_mask(a, code_page) + further),
        further.len() >= 2,
        !further[0],
        !further[1],
    ensures
        ({
            let n = unnamed_mask(a, code_page).len() as int;
            &&& n == 0 || (n >= 6 && !unnamed_mask(a, code_page)[0] && !unnamed_mask(
                a,
                code_page,
            )[1])
            &&& left(a, unnamed_reference(a, code_page, name)) == a.skip(n)
            &&& gives_same(
                unnamed_reference(a, code_page, name),
                unnamed_reference(b, code_page, name),
                b.skip(n),
            )
            &&& agree(a.skip(n), b.skip(n), further)
        }),
{
    reveal(unnamed_mask);
    let mask = unnamed_mask(a, code_page);
    let n = mask.len() as int;
    lemma_split(a, b, mask, further);
    if le16(a) == 0x2f {
        lemma_control(a, b, code_page);
        lemma_starts_alike(a, b, mask);
    } else {
        let t = taken(a, unnamed_reference(a, code_page, None));
        lemma_plain_size(a, code_page, name);
        lemma_kept_is_shared(a, b, t);
        if t == 0 {
            assert(a.skip(0) == a && b.skip(0) == b);
            lemma_starts_alike(a, b, further);
        } else {
            lemma_starts_alike(a, b, mask);
        }
        lemma_plain_reference(a, b, code_page, name);
    }
}

/// How many bytes a reference without its name takes up, where it is not of a twiddled type
/// library.
proof fn lemma_plain_size(a: Seq<u8>, code_page: u16, name: Option<Seq<char>>)
    requires
        unnamed_reference(a, code_page, name) is Ok,
        le16(a) != 0x2f,
    ensures
        ({
            let t = taken(a, unnamed_reference(a, code_page, None));
            t == 0 || 6 <= t <= a.len()
        }),
{
    if le16(a) == 0x33 {
    } else if le16(a) == 0x0d {
        lemma_nested_leaves_rest(a, 0x0d);
    } else if le16(a) == 0x0e {
        lemma_nested_leaves_rest(a, 0x0e);
    }
}

/// A reference starts with one of six identifiers.
proof fn lemma_reference_start(a: Seq<u8>, code_page: u16)
    requires
        reference(a, code_page) is Ok,
    ensures
        a.len() >= 2,
        ({
            let id = le16(a);
            id == 0x16 || id == 0x2f || id == 0x33 || id == 0x0d || id == 0x0e || id == 0x0f
        }),
        name_pair(a) is Err ==> le16(a) != 0x16,
        reference_name(a, code_page) is Ok,
        unnamed_reference(
            a.skip(name_mask(a).len() as int),
            code_page,
            reference_name(a, code_page)->Ok_0.1,
        ) is Ok,
{
    reveal(reference);
    lemma_name_leaves_rest(a, code_page);
    if name_pair(a) is Ok {
        assert(le16(a) == 0x16) by {
            reveal(data_record);
        }
    } else {
        assert(a.skip(0) == a);
    }
}

/// A reference does not depend on dropped contents.
pub proof fn lemma_reference_ignores_dropped(
    a: Seq<u8>,
    b: Seq<u8>,
    code_page: u16,
    further: Seq<bool>,
)
    requires
        reference(a, code_page) is Ok,
        agree(a, b, reference_mask(a, code_page) + further),
        further.len() >= 2,
        !further[0],
        !further[1],
    ensures
        ({
            let n = reference_mask(a, code_page).len() as int;
            let mask = reference_mask(a, code_page) + further;
            &&& !mask[0] && !mask[1]
            &&& left(a, reference(a, code_page)) == a.skip(n)
            &&& gives_same(reference(a, code_page), reference(b, code_page), b.skip(n))
            &&& agree(a.skip(n), b.skip(n), further)
        }),
{
    reveal(reference_mask);
    lemma_reference_start(a, code_page);
    lemma_name_leaves_rest(a, code_page);
    let m1 = name_mask(a);
    let a1 = a.skip(m1.len() as int);
    let m2 = unnamed_mask(a1, code_page);
    let name = reference_name(a, code_page)->Ok_0.1;
    assert(reference_mask(a, code_page) + further == m1 + (m2 + further));
    lemma_unnamed_mask_start(a1, code_page, name);
    lemma_reference_name(a, b, code_page, m2 + further);
    let b1 = b.skip(m1.len() as int);
    lemma_unnamed(a1, b1, code_page, name, further);
    let n = reference_mask(a, code_page).len() as int;
    assert(a1.skip(m2.len() as int) == a.skip(n));
    assert(b1.skip(m2.len() as int) == b.skip(n));
    assert(m1.len() == 0 || (m1.len() >= 2 && !m1[0] && !m1[1])) by {
        reveal(name_mask);
    }
    reveal(reference);
}

/// The first two bytes of a reference without its name are not dropped.
proof fn lemma_unnamed_mask_start(a: Seq<u8>, code_page: u16, name: Option<Seq<char>>)
    requires
        unnamed_reference(a, code_page, name) is Ok,
    ensures
        ({
            let mask = unnamed_mask(a, code_page);
            mask.len() == 0 || (mask.len() >= 2 && !mask[0] && !mask[1])
        }),
{
    reveal(unnamed_mask);
    if le16(a) == 0x2f {
        lemma_control_chain(a, code_page);
        reveal(control_mask);
    } else {
        lemma_plain_size(a, code_page, name);
    }
}

/// The references do not depend on dropped contents.
proof fn lemma_references_from(
    a: Seq<u8>,
    b: Seq<u8>,
    code_page: u16,
    found: Seq<ReferenceView>,
    further: Seq<bool>,
)
    requires
        references_from(a, code_page, found) is Ok,
        agree(a, b, references_mask(a, code_page) + further),
        further.len() >= 2,
        !further[0],
        !further[1],
    ensures
        ({
            let n = references_mask(a, code_page).len() as int;
            &&& left(a, references_from(a, code_page, found)) == a.skip(n)
            &&& gives_same(
                references_from(a, code_page, found),
                references_from(b, code_page, found),
                b.skip(n),
            )
            &&& agree(a.skip(n), b.skip(n), further)
        }),
    decreases a.len(),
{
    let m1 = reference_mask(a, code_page);
    match reference(a, code_page) {
        Ok((rest, Some(value))) => {
            lemma_reference_takes_input(a, code_page);
            let m2 = references_mask(rest, code_page);
            lemma_references_mask_start(rest, code_page, found.push(value), further);
            assert(references_mask(a, code_page) + further == m1 + (m2 + further));
            lemma_reference_ignores_dropped(a, b, code_page, m2 + further);
            let n1 = m1.len() as int;
            lemma_references_from(rest, b.skip(n1), code_page, found.push(value), further);
            lemma_split(a, b, m1, m2 + further);
            let n = references_mask(a, code_page).len() as int;
            assert(a.skip(n1).skip(m2.len() as int) == a.skip(n));
            assert(b.skip(n1).skip(m2.len() as int) == b.skip(n));
        },
        Ok((_, None)) => {
            lemma_reference_ignores_dropped(a, b, code_page, further);
        },
        Err(_) => {},
    }
}

/// The first two bytes of the references, or of what stands behind them, are not dropped.
proof fn lemma_references_mask_start(
    a: Seq<u8>,
    code_page: u16,
    found: Seq<ReferenceView>,
    further: Seq<bool>,
)
    requires
        references_from(a, code_page, found) is Ok,
        further.len() >= 2,
        !further[0],
        !further[1],
    ensures
        ({
            let mask = references_mask(a, code_page) + further;
            mask.len() >= 2 && !mask[0] && !mask[1]
        }),
    decreases a.len(),
{
    reveal(reference_mask);
    lemma_reference_start(a, code_page);
    let m1 = name_mask(a);
    lemma_unnamed_mask_start(
        a.skip(m1.len() as int),
        code_page,
        reference_name(a, code_page)->Ok_0.1,
    );
    assert(m1.len() == 0 || (m1.len() >= 2 && !m1[0] && !m1[1])) by {
        reveal(name_mask);
    }
    if let Ok((rest, Some(value))) = reference(a, code_page) {
        lemma_reference_takes_input(a, code_page);
        lemma_references_mask_start(rest, code_page, found.push(value), further);
        let m2 = references_mask(rest, code_page) + further;
        assert(references_mask(a, code_page) + further == reference_mask(a, code_page) + m2);
    }
}

/// The references do not depend on dropped contents, as long as what stands behind them starts
/// with the same identifier.
pub proof fn lemma_references_ignore_dropped(
    a: Seq<u8>,
    b: Seq<u8>,
    code_page: u16,
    further: Seq<bool>,
)
    requires
        references(a, code_page) is Ok,
        agree(a, b, references_mask(a, code_page) + further),
        further.len() >= 2,
        !further[0],
        !further[1],
    ensures
        ({
            let n = references_mask(a, code_page).len() as int;
            let mask = references_mask(a, code_page) + further;
            &&& !mask[0] && !mask[1]
            &&& le16(a) != 0x0c && le16(a) != 0x3c
            &&& left(a, references(a, code_page)) == a.skip(n)
            &&& gives_same(references(a, code_page), references(b, code_page), b.skip(n))
            &&& agree(a.skip(n), b.skip(n), further)
        }),
{
    lemma_reference_start(a, code_page);
    lemma_references_mask_start(a, code_page, Seq::empty(), further);
    lemma_references_from(a, b, code_page, Seq::empty(), further);
}

} // verus!
