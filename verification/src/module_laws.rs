//! What holds of the records of all modules.

use vstd::prelude::*;

use crate::bytes::{data_record, le16, le32, u16_record, u32_record};
use crate::dropped::{
    agree, dropped, gives_same, kept, left, lemma_data_record, lemma_dropped_u16_record,
    lemma_integer_record_leaves_rest, lemma_kept_is_shared, lemma_other_identifier,
    lemma_record_leaves_rest, lemma_share_split, lemma_six_bytes, lemma_split, lemma_starts_alike,
    lemma_two_records, lemma_u16_record, lemma_u32_record, share, taken, two_records_mask,
};
use crate::modules::{
    flag_record, module_kind, module_name, module_record, module_settings, module_type_record,
    modules, modules_from, text_records, ModuleView,
};

verus! {

broadcast use {
    crate::bytes::lemma_data_record_size,
    crate::bytes::lemma_u16_record_size,
    crate::bytes::lemma_u32_record_size,
};

/// Which bytes of the records of a module's name are dropped: the contents of the one in UTF-16.
#[verifier::opaque]
pub open spec fn module_name_mask(input: Seq<u8>) -> Seq<bool> {
    if data_record(left(input, data_record(input, 0x19)), 0x47) is Ok {
        two_records_mask(input, 0x19, 0x47, true)
    } else {
        kept(taken(input, data_record(input, 0x19)))
    }
}

/// Which bytes of the records behind those of a module's texts are dropped: the cookie.
#[verifier::opaque]
pub open spec fn module_settings_mask(input: Seq<u8>) -> Seq<bool> {
    kept(20) + (dropped(8) + kept(taken(input.skip(28), module_kind(input.skip(28)))))
}

/// Which bytes of the records of a module are dropped: the contents of the texts in UTF-16, and
/// the cookie.
#[verifier::opaque]
pub open spec fn module_mask(input: Seq<u8>) -> Seq<bool> {
    let name = module_name_mask(input);
    let behind = input.skip(name.len() as int);
    let stream_name = two_records_mask(behind, 0x1a, 0x32, true);
    let further = behind.skip(stream_name.len() as int);
    let doc_string = two_records_mask(further, 0x1c, 0x48, true);
    name + (stream_name + (doc_string + module_settings_mask(
        further.skip(doc_string.len() as int),
    )))
}

/// Which bytes of the records of `count` modules are dropped.
pub open spec fn modules_mask_from(input: Seq<u8>, code_page: u16, count: int) -> Seq<bool>
    decreases count,
{
    if count <= 0 {
        Seq::empty()
    } else {
        module_mask(input) + modules_mask_from(
            left(input, module_record(input, code_page)),
            code_page,
            count - 1,
        )
    }
}

/// Which bytes of the number of modules and their records are dropped: a cookie, and those of the
/// records.
#[verifier::opaque]
pub open spec fn modules_mask(input: Seq<u8>, code_page: u16) -> Seq<bool> {
    kept(8) + (dropped(8) + modules_mask_from(
        input.skip(16),
        code_page,
        u16_record(input, 0x0f)->Ok_0.1 as int,
    ))
}

/// Whether a record without content is found depends on its own bytes alone.
proof fn lemma_flag(a: Seq<u8>, b: Seq<u8>, id: u16)
    requires
        share(a, b, 6),
    ensures
        a.len() >= 6,
        left(a, flag_record(a, id)) == a || left(a, flag_record(a, id)) == a.skip(6),
        flag_record(a, id) is Ok,
        flag_record(a, id)->Ok_0.1 <==> le16(a) == id && le32(a.skip(2)) == 0,
        flag_record(a, id)->Ok_0.1 <==> left(a, flag_record(a, id)) == a.skip(6),
        gives_same(
            flag_record(a, id),
            flag_record(b, id),
            if flag_record(a, id)->Ok_0.1 {
                b.skip(6)
            } else {
                b
            },
        ),
{
    lemma_share_split(a, b, 6, 0);
    lemma_six_bytes(a, b);
    assert(a.skip(6).len() != a.len());
}

/// The last records of a module depend on their own bytes alone.
proof fn lemma_module_kind(a: Seq<u8>, b: Seq<u8>)
    requires
        module_kind(a) is Ok,
        share(a, b, taken(a, module_kind(a))),
    ensures
        12 <= taken(a, module_kind(a)) <= a.len(),
        left(a, module_kind(a)) == a.skip(taken(a, module_kind(a))),
        gives_same(module_kind(a), module_kind(b), b.skip(taken(a, module_kind(a)))),
{
    reveal(module_kind);
    let n = taken(a, module_kind(a));
    lemma_share_split(a, b, 6, n - 6);
    lemma_six_bytes(a, b);
    let (a1, b1) = (a.skip(6), b.skip(6));
    lemma_share_split(a1, b1, 6, n - 12);
    lemma_flag(a1, b1, 0x25);
    let a2 = left(a1, flag_record(a1, 0x25));
    let b2 = left(b1, flag_record(b1, 0x25));
    let m = n - 6 - (a1.len() - a2.len());
    lemma_share_split(a2, b2, 6, m - 6);
    lemma_flag(a2, b2, 0x28);
    let a3 = left(a2, flag_record(a2, 0x28));
    let b3 = left(b2, flag_record(b2, 0x28));
    lemma_share_split(a3, b3, 6, 0);
    lemma_six_bytes(a3, b3);
    assert(a3.skip(6) == a.skip(n));
    assert(b3.skip(6) == b.skip(n));
}

/// The records behind those of a module's texts stand behind one another.
proof fn lemma_settings_chain(a: Seq<u8>)
    requires
        module_settings(a) is Ok,
    ensures
        u32_record(a, 0x31) is Ok,
        left(a, u32_record(a, 0x31)) == a.skip(10),
        u32_record(a.skip(10), 0x1e) is Ok,
        left(a.skip(10), u32_record(a.skip(10), 0x1e)) == a.skip(20),
        u16_record(a.skip(20), 0x2c) is Ok,
        left(a.skip(20), u16_record(a.skip(20), 0x2c)) == a.skip(28),
        module_kind(a.skip(28)) is Ok,
        28 <= a.len(),
        left(a, module_settings(a)) == left(a.skip(28), module_kind(a.skip(28))),
{
    reveal(module_settings);
    lemma_integer_record_leaves_rest(a, 0x31);
    let a1 = a.skip(10);
    lemma_integer_record_leaves_rest(a1, 0x1e);
    assert(a1.skip(10) == a.skip(20));
    let a2 = a.skip(20);
    lemma_integer_record_leaves_rest(a2, 0x2c);
    assert(a2.skip(8) == a.skip(28));
}

/// The last records of a module take up some input.
proof fn lemma_module_kind_size(a: Seq<u8>)
    requires
        module_kind(a) is Ok,
    ensures
        12 <= taken(a, module_kind(a)) <= a.len(),
{
    reveal(module_kind);
}

/// The records behind those of a module's texts do not depend on the cookie.
proof fn lemma_module_settings(a: Seq<u8>, b: Seq<u8>)
    requires
        module_settings(a) is Ok,
        agree(a, b, module_settings_mask(a)),
    ensures
        taken(a, module_settings(a)) == module_settings_mask(a).len(),
        left(a, module_settings(a)) == a.skip(module_settings_mask(a).len() as int),
        gives_same(
            module_settings(a),
            module_settings(b),
            b.skip(module_settings_mask(a).len() as int),
        ),
{
    reveal(module_settings_mask);
    lemma_settings_chain(a);
    let a3 = a.skip(28);
    let t = taken(a3, module_kind(a3));
    lemma_module_kind_size(a3);
    lemma_split(a, b, kept(20), dropped(8) + kept(t));
    lemma_kept_is_shared(a, b, 20);
    lemma_share_split(a, b, 10, 10);
    lemma_u32_record(a, b, 0x31);
    lemma_u32_record(a.skip(10), b.skip(10), 0x1e);
    let (a2, b2) = (a.skip(20), b.skip(20));
    lemma_split(a2, b2, dropped(8), kept(t));
    lemma_dropped_u16_record(a2, b2, 0x2c);
    let b3 = b2.skip(8);
    assert(a2.skip(8) == a3);
    lemma_kept_is_shared(a3, b3, t);
    lemma_module_kind(a3, b3);
    assert(a3.skip(t) == a.skip(28 + t));
    assert(b3.skip(t) == b.skip(28 + t));
    reveal(module_settings);
}

/// The records of a module's name do not depend on the one in UTF-16.
proof fn lemma_module_name(a: Seq<u8>, b: Seq<u8>, code_page: u16, further: Seq<bool>)
    requires
        module_name(a, code_page) is Ok,
        agree(a, b, module_name_mask(a) + further),
        further.len() >= 2,
        !further[0],
        !further[1],
        le16(a.skip(module_name_mask(a).len() as int)) != 0x47,
    ensures
        6 <= module_name_mask(a).len(),
        left(a, module_name(a, code_page)) == a.skip(module_name_mask(a).len() as int),
        gives_same(
            module_name(a, code_page),
            module_name(b, code_page),
            b.skip(module_name_mask(a).len() as int),
        ),
        agree(
            a.skip(module_name_mask(a).len() as int),
            b.skip(module_name_mask(a).len() as int),
            further,
        ),
{
    reveal(module_name);
    reveal(module_name_mask);
    let mask = module_name_mask(a);
    let n = mask.len() as int;
    lemma_split(a, b, mask, further);
    let behind = left(a, data_record(a, 0x19));
    if data_record(behind, 0x47) is Ok {
        lemma_two_records(a, b, 0x19, 0x47, true, further);
    } else {
        lemma_kept_is_shared(a, b, n);
        lemma_data_record(a, b, 0x19);
        lemma_starts_alike(a.skip(n), b.skip(n), further);
        lemma_other_identifier(b.skip(n), 0x47);
    }
}

/// Two records that hold a text do not depend on the one in UTF-16.
proof fn lemma_text_records(
    a: Seq<u8>,
    b: Seq<u8>,
    id: u16,
    unicode_id: u16,
    code_page: u16,
    further: Seq<bool>,
)
    requires
        text_records(a, id, unicode_id, code_page) is Ok,
        agree(a, b, two_records_mask(a, id, unicode_id, true) + further),
    ensures
        ({
            let n = two_records_mask(a, id, unicode_id, true).len() as int;
            &&& 12 <= n
            &&& left(a, text_records(a, id, unicode_id, code_page)) == a.skip(n)
            &&& gives_same(
                text_records(a, id, unicode_id, code_page),
                text_records(b, id, unicode_id, code_page),
                b.skip(n),
            )
            &&& agree(a.skip(n), b.skip(n), further)
        }),
{
    reveal(text_records);
    lemma_two_records(a, b, id, unicode_id, true, further);
}

/// The records of a module's texts stand behind one another.
proof fn lemma_module_chain(a: Seq<u8>, code_page: u16)
    requires
        module_record(a, code_page) is Ok,
    ensures
        ({
            let n1 = module_name_mask(a).len() as int;
            let a1 = a.skip(n1);
            let n2 = two_records_mask(a1, 0x1a, 0x32, true).len() as int;
            let a2 = a1.skip(n2);
            let n3 = two_records_mask(a2, 0x1c, 0x48, true).len() as int;
            let a3 = a2.skip(n3);
            &&& module_name(a, code_page) is Ok
            &&& left(a, module_name(a, code_page)) == a1
            &&& data_record(a, 0x19) is Ok
            &&& text_records(a1, 0x1a, 0x32, code_page) is Ok
            &&& data_record(a1, 0x1a) is Ok
            &&& le16(a1) == 0x1a
            &&& left(a1, text_records(a1, 0x1a, 0x32, code_page)) == a2
            &&& text_records(a2, 0x1c, 0x48, code_page) is Ok
            &&& left(a2, text_records(a2, 0x1c, 0x48, code_page)) == a3
            &&& module_settings(a3) is Ok
            &&& left(a, module_record(a, code_page)) == left(a3, module_settings(a3))
        }),
{
    let n1 = module_name_mask(a).len() as int;
    assert(module_name(a, code_page) is Ok) by {
        reveal(module_record);
    }
    assert(left(a, module_name(a, code_page)) == a.skip(n1) && data_record(a, 0x19) is Ok) by {
        reveal(module_name);
        reveal(module_name_mask);
        lemma_record_leaves_rest(a, 0x19);
        let behind = left(a, data_record(a, 0x19));
        lemma_record_leaves_rest(behind, 0x47);
    }
    let a1 = a.skip(n1);
    assert(text_records(a1, 0x1a, 0x32, code_page) is Ok) by {
        reveal(module_record);
    }
    lemma_text_records_leave_rest(a1, 0x1a, 0x32, code_page);
    let a2 = a1.skip(two_records_mask(a1, 0x1a, 0x32, true).len() as int);
    assert(text_records(a2, 0x1c, 0x48, code_page) is Ok) by {
        reveal(module_record);
    }
    lemma_text_records_leave_rest(a2, 0x1c, 0x48, code_page);
    reveal(module_record);
}

/// Two records that hold a text leave what stands behind them.
proof fn lemma_text_records_leave_rest(
    input: Seq<u8>,
    id: u16,
    unicode_id: u16,
    code_page: u16,
)
    requires
        text_records(input, id, unicode_id, code_page) is Ok,
    ensures
        data_record(input, id) is Ok,
        le16(input) == id,
        left(input, text_records(input, id, unicode_id, code_page)) == input.skip(
            two_records_mask(input, id, unicode_id, true).len() as int,
        ),
{
    reveal(text_records);
    assert(le16(input) == id) by {
        reveal(data_record);
    }
    lemma_record_leaves_rest(input, id);
    lemma_record_leaves_rest(left(input, data_record(input, id)), unicode_id);
}

/// The records of a module do not depend on dropped contents: of the texts in UTF-16 and of the
/// cookie.
pub proof fn lemma_module_ignores_dropped(a: Seq<u8>, b: Seq<u8>, code_page: u16)
    requires
        module_record(a, code_page) is Ok,
        agree(a, b, module_mask(a)),
    ensures
        taken(a, module_record(a, code_page)) == module_mask(a).len(),
        left(a, module_record(a, code_page)) == a.skip(module_mask(a).len() as int),
        gives_same(
            module_record(a, code_page),
            module_record(b, code_page),
            b.skip(module_mask(a).len() as int),
        ),
{
    reveal(module_mask);
    lemma_module_chain(a, code_page);
    let m1 = module_name_mask(a);
    let a1 = a.skip(m1.len() as int);
    let m2 = two_records_mask(a1, 0x1a, 0x32, true);
    let a2 = a1.skip(m2.len() as int);
    let m3 = two_records_mask(a2, 0x1c, 0x48, true);
    let a3 = a2.skip(m3.len() as int);
    let m4 = module_settings_mask(a3);
    let n = module_mask(a).len() as int;
    assert(module_mask(a) == m1 + (m2 + (m3 + m4)));
    assert(m2.len() >= 2 && !m2[0] && !m2[1]);
    lemma_module_name(a, b, code_page, m2 + (m3 + m4));
    let b1 = b.skip(m1.len() as int);
    lemma_text_records(a1, b1, 0x1a, 0x32, code_page, m3 + m4);
    let b2 = b1.skip(m2.len() as int);
    lemma_text_records(a2, b2, 0x1c, 0x48, code_page, m4);
    let b3 = b2.skip(m3.len() as int);
    lemma_module_settings(a3, b3);
    lemma_split(a, b, m1, m2 + (m3 + m4));
    assert(a3.skip(m4.len() as int) == a.skip(n));
    assert(b3.skip(m4.len() as int) == b.skip(n));
    reveal(module_record);
}

/// The records of several modules do not depend on dropped contents.
proof fn lemma_modules_from(
    a: Seq<u8>,
    b: Seq<u8>,
    code_page: u16,
    count: int,
    found: Seq<ModuleView>,
)
    requires
        modules_from(a, code_page, count, found) is Ok,
        agree(a, b, modules_mask_from(a, code_page, count)),
    ensures
        left(a, modules_from(a, code_page, count, found)) == a.skip(
            modules_mask_from(a, code_page, count).len() as int,
        ),
        gives_same(
            modules_from(a, code_page, count, found),
            modules_from(b, code_page, count, found),
            b.skip(modules_mask_from(a, code_page, count).len() as int),
        ),
    decreases count,
{
    if count <= 0 {
        assert(a.skip(0) == a && b.skip(0) == b);
    } else {
        let behind = left(a, module_record(a, code_page));
        let further = modules_mask_from(behind, code_page, count - 1);
        let n = module_mask(a).len() as int;
        lemma_split(a, b, module_mask(a), further);
        lemma_module_ignores_dropped(a, b, code_page);
        lemma_modules_from(
            behind,
            b.skip(n),
            code_page,
            count - 1,
            found.push(module_record(a, code_page)->Ok_0.1),
        );
        let all = n + further.len();
        assert(a.skip(n).skip(further.len() as int) == a.skip(all));
        assert(b.skip(n).skip(further.len() as int) == b.skip(all));
    }
}

/// The number of modules and their records do not depend on dropped contents.
pub proof fn lemma_modules_ignore_dropped(a: Seq<u8>, b: Seq<u8>, code_page: u16)
    requires
        modules(a, code_page) is Ok,
        agree(a, b, modules_mask(a, code_page)),
    ensures
        16 <= modules_mask(a, code_page).len(),
        !modules_mask(a, code_page)[0],
        !modules_mask(a, code_page)[1],
        le16(a) == 0x0f,
        left(a, modules(a, code_page)) == a.skip(modules_mask(a, code_page).len() as int),
        gives_same(
            modules(a, code_page),
            modules(b, code_page),
            b.skip(modules_mask(a, code_page).len() as int),
        ),
{
    reveal(modules_mask);
    let count = u16_record(a, 0x0f)->Ok_0.1 as int;
    lemma_integer_record_leaves_rest(a, 0x0f);
    let a1 = a.skip(8);
    lemma_integer_record_leaves_rest(a1, 0x13);
    let a2 = a.skip(16);
    assert(a1.skip(8) == a2);
    let further = modules_mask_from(a2, code_page, count);
    lemma_split(a, b, kept(8), dropped(8) + further);
    lemma_kept_is_shared(a, b, 8);
    lemma_u16_record(a, b, 0x0f);
    let b1 = b.skip(8);
    lemma_split(a1, b1, dropped(8), further);
    lemma_dropped_u16_record(a1, b1, 0x13);
    let b2 = b1.skip(8);
    lemma_modules_from(a2, b2, code_page, count, Seq::empty());
    let n = modules_mask(a, code_page).len() as int;
    assert(a2.skip(further.len() as int) == a.skip(n));
    assert(b2.skip(further.len() as int) == b.skip(n));
}

/// The bytes of a record without content.
pub open spec fn empty_record_bytes(id: u8) -> Seq<u8> {
    seq![id, 0, 0, 0, 0, 0]
}

/// A record without content is its identifier and a size of zero.
proof fn lemma_empty_record_bytes(input: Seq<u8>, id: u8)
    requires
        input.len() >= 6,
    ensures
        input.take(6) == empty_record_bytes(id) <==> le16(input) == id && le32(input.skip(2)) == 0,
{
    if input.take(6) == empty_record_bytes(id) {
        assert forall|k: int| 0 <= k < 6 implies #[trigger] input[k] == empty_record_bytes(
            id,
        )[k] by {
            assert(input.take(6)[k] == input[k]);
        }
    }
    if le16(input) == id && le32(input.skip(2)) == 0 {
        assert(input.skip(2)[0] == input[2] && input.skip(2)[1] == input[3] && input.skip(2)[2]
            == input[4] && input.skip(2)[3] == input[5]);
        assert(input.take(6) == empty_record_bytes(id));
    }
}

/// The input at the record of a module's type.
pub open spec fn at_module_type(input: Seq<u8>, code_page: u16) -> Seq<u8> {
    let behind = left(input, module_name(input, code_page));
    let further = left(behind, text_records(behind, 0x1a, 0x32, code_page));
    left(further, text_records(further, 0x1c, 0x48, code_page)).skip(28)
}

/// The last records of a module are its type, which takes six bytes, the flags that are set, and
/// the end.
proof fn lemma_kind_flags(a: Seq<u8>)
    requires
        module_kind(a) is Ok,
    ensures
        ({
            let (rest, (_, (read_only, private))) = module_kind(a)->Ok_0;
            let end = a.len() - rest.len();
            &&& 12 <= end <= a.len()
            &&& rest == a.skip(end)
            &&& read_only <==> a.subrange(6, 12) == empty_record_bytes(0x25)
            &&& private <==> a.subrange(end - 12, end - 6) == empty_record_bytes(0x28)
            &&& a.subrange(end - 6, end) == empty_record_bytes(0x2b)
        }),
{
    reveal(module_kind);
    reveal(share);
    let (rest, (_, (read_only, private))) = module_kind(a)->Ok_0;
    let end = a.len() - rest.len();
    let a1 = a.skip(6);
    assert(a.skip(2).skip(4) == a1);
    lemma_flag(a1, a1, 0x25);
    let a2 = left(a1, flag_record(a1, 0x25));
    lemma_flag(a2, a2, 0x28);
    let a3 = left(a2, flag_record(a2, 0x28));
    assert(a3.skip(2).skip(4) == a3.skip(6));
    assert(a3 == a.skip(end - 6));
    assert(a3.skip(6) == a.skip(end));
    lemma_empty_record_bytes(a, 0x28);
    lemma_empty_record_bytes(a1, 0x25);
    lemma_empty_record_bytes(a1, 0x28);
    lemma_empty_record_bytes(a2, 0x28);
    lemma_empty_record_bytes(a3, 0x2b);
    assert(a1.take(6) == a.subrange(6, 12));
    assert(a3.take(6) == a.subrange(end - 6, end));
    if private {
        assert(a2 == a.skip(end - 12));
        assert(a2.take(6) == a.subrange(end - 12, end - 6));
    } else if read_only {
        assert(a1 == a.skip(end - 12));
        assert(a1.take(6) == a.subrange(end - 12, end - 6));
    } else {
        assert(end == 12);
        assert(a.take(6) == a.subrange(end - 12, end - 6));
    }
}

/// A module is read-only if and only if the record for that stands behind the record of its type,
/// and private if and only if the record for that stands in front of the end.
pub proof fn lemma_module_flags(input: Seq<u8>, code_page: u16)
    requires
        module_record(input, code_page) is Ok,
    ensures
        ({
            let (rest, module) = module_record(input, code_page)->Ok_0;
            let kind = at_module_type(input, code_page);
            let end = input.len() - rest.len();
            &&& 12 <= kind.len() <= input.len()
            &&& kind == input.skip(input.len() - kind.len())
            &&& module_type_record(kind) is Ok
            &&& module.read_only <==> kind.subrange(6, 12) == empty_record_bytes(0x25)
            &&& 12 <= end <= input.len()
            &&& module.private <==> input.subrange(end - 12, end - 6) == empty_record_bytes(0x28)
            &&& input.subrange(end - 6, end) == empty_record_bytes(0x2b)
        }),
{
    lemma_module_chain(input, code_page);
    let n1 = module_name_mask(input).len() as int;
    let a1 = input.skip(n1);
    let n2 = two_records_mask(a1, 0x1a, 0x32, true).len() as int;
    let a2 = a1.skip(n2);
    let n3 = two_records_mask(a2, 0x1c, 0x48, true).len() as int;
    let a3 = a2.skip(n3);
    lemma_settings_chain(a3);
    let kind = a3.skip(28);
    assert(at_module_type(input, code_page) == kind);
    lemma_kind_flags(kind);
    let rest = module_record(input, code_page)->Ok_0.0;
    let end = input.len() - rest.len();
    let t = kind.len() - rest.len();
    assert(n1 >= 0 && n2 >= 0 && n3 >= 0);
    assert(a3.len() >= 28);
    assert(n1 + n2 + n3 + a3.len() == input.len()) by {
        lemma_texts_fit(input, code_page);
    }
    assert(kind == input.skip(input.len() - kind.len()));
    assert(kind.subrange(t - 12, t - 6) == input.subrange(end - 12, end - 6));
    assert(kind.subrange(t - 6, t) == input.subrange(end - 6, end));
    reveal(module_record);
    reveal(module_settings);
    reveal(module_kind);
}

/// The records of a module's texts lie within the input.
proof fn lemma_texts_fit(input: Seq<u8>, code_page: u16)
    requires
        module_record(input, code_page) is Ok,
    ensures
        ({
            let n1 = module_name_mask(input).len() as int;
            let a1 = input.skip(n1);
            let n2 = two_records_mask(a1, 0x1a, 0x32, true).len() as int;
            let a2 = a1.skip(n2);
            let n3 = two_records_mask(a2, 0x1c, 0x48, true).len() as int;
            &&& n1 <= input.len()
            &&& n2 <= a1.len()
            &&& n3 <= a2.len()
        }),
{
    lemma_module_chain(input, code_page);
    assert(module_name_mask(input).len() <= input.len()) by {
        reveal(module_name_mask);
    }
    let a1 = input.skip(module_name_mask(input).len() as int);
    let a2 = a1.skip(two_records_mask(a1, 0x1a, 0x32, true).len() as int);
    reveal(text_records);
}

/// A module is the same without the record of its name in UTF-16.
pub proof fn lemma_unicode_name_can_be_left_out(input: Seq<u8>, code_page: u16)
    requires
        module_record(input, code_page) is Ok,
        data_record(left(input, data_record(input, 0x19)), 0x47) is Ok,
    ensures
        ({
            let name = taken(input, data_record(input, 0x19));
            let behind = left(input, data_record(input, 0x19));
            module_record(input.take(name) + left(behind, data_record(behind, 0x47)), code_page)
                == module_record(input, code_page)
        }),
{
    lemma_module_chain(input, code_page);
    let name = taken(input, data_record(input, 0x19));
    let behind = left(input, data_record(input, 0x19));
    let further = left(behind, data_record(behind, 0x47));
    let shorter = input.take(name) + further;
    assert(share(input, shorter, name)) by {
        reveal(share);
    }
    lemma_data_record(input, shorter, 0x19);
    assert(shorter.skip(name) == further);
    assert(left(input, module_name(input, code_page)) == further) by {
        reveal(module_name);
    }
    lemma_other_identifier(further, 0x47);
    assert(module_name(shorter, code_page) == module_name(input, code_page)) by {
        reveal(module_name);
    }
    reveal(module_record);
}

} // verus!
