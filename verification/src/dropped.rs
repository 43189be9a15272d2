//! Which bytes of a *dir* stream have no influence on what is read from it.
//!
//! Some fields are stored twice, once in the project's code page and once in UTF-16, and some are
//! of no use to a reader. Their contents are dropped. What is read depends on no other bytes than
//! those of the records that it is read from, and among these not on dropped contents.

use vstd::prelude::*;

use crate::bytes::{data_record, le16, le32, u16_record, u32_record};
use crate::format::Parsed;

verus! {

broadcast use {
    crate::bytes::lemma_data_record_size,
    crate::bytes::lemma_u16_record_size,
    crate::bytes::lemma_u32_record_size,
};

/// The number of bytes that a parser takes up.
pub open spec fn taken<A>(input: Seq<u8>, parsed: Parsed<A>) -> int {
    match parsed {
        Ok((rest, _)) => input.len() - rest.len(),
        Err(_) => 0,
    }
}

/// The input that a parser leaves.
pub open spec fn left<A>(input: Seq<u8>, parsed: Parsed<A>) -> Seq<u8> {
    match parsed {
        Ok((rest, _)) => rest,
        Err(_) => input,
    }
}

/// Whether a parser gives the same value for two inputs, and the given rest for the second.
pub open spec fn gives_same<A>(first: Parsed<A>, second: Parsed<A>, rest: Seq<u8>) -> bool {
    first matches Ok((_, value)) && second matches Ok((second_rest, second_value)) && second_rest
        == rest && second_value == value
}

/// The mask of `count` bytes of which none is dropped.
pub open spec fn kept(count: int) -> Seq<bool> {
    Seq::new(count as nat, |k: int| false)
}

/// The mask of a record of `count` bytes of which the contents, behind its identifier and its size,
/// are dropped.
pub open spec fn dropped(count: int) -> Seq<bool> {
    Seq::new(count as nat, |k: int| k >= 6)
}

/// The mask of two records of variable size, of which the contents of the second may be dropped.
pub open spec fn two_records_mask(input: Seq<u8>, id: u16, second: u16, drops: bool) -> Seq<bool> {
    let behind = left(input, data_record(input, id));
    kept(taken(input, data_record(input, id))) + (if drops {
        dropped(taken(behind, data_record(behind, second)))
    } else {
        kept(taken(behind, data_record(behind, second)))
    })
}

/// Whether two inputs agree in the bytes that a mask covers, apart from those that are dropped.
#[verifier::opaque]
pub open spec fn agree(a: Seq<u8>, b: Seq<u8>, mask: Seq<bool>) -> bool {
    &&& mask.len() <= a.len()
    &&& mask.len() <= b.len()
    &&& forall|k: int| 0 <= k < mask.len() && !(#[trigger] mask[k]) ==> a[k] == b[k]
}

/// Whether two inputs have the same first `count` bytes.
#[verifier::opaque]
pub open spec fn share(a: Seq<u8>, b: Seq<u8>, count: int) -> bool {
    &&& 0 <= count <= a.len()
    &&& count <= b.len()
    &&& forall|k: int| 0 <= k < count ==> #[trigger] a[k] == b[k]
}

/// Whether two inputs start with the same identifier of a record.
pub open spec fn start_alike(a: Seq<u8>, b: Seq<u8>) -> bool {
    a.len() >= 2 && b.len() >= 2 && le16(a) == le16(b)
}

/// Inputs that agree in the bytes that two masks cover agree in the bytes that each covers.
pub proof fn lemma_split(a: Seq<u8>, b: Seq<u8>, mask: Seq<bool>, further: Seq<bool>)
    requires
        agree(a, b, mask + further),
    ensures
        agree(a, b, mask),
        agree(a.skip(mask.len() as int), b.skip(mask.len() as int), further),
        mask.len() + further.len() <= a.len(),
        mask.len() + further.len() <= b.len(),
{
    reveal(agree);
    reveal(share);
    let all = mask + further;
    let n = mask.len() as int;
    assert forall|k: int| 0 <= k < mask.len() && !(#[trigger] mask[k]) implies a[k] == b[k] by {
        assert(!all[k]);
    }
    assert forall|k: int| 0 <= k < further.len() && !(#[trigger] further[k]) implies a.skip(n)[k]
        == b.skip(n)[k] by {
        assert(!all[n + k]);
    }
}

/// Inputs with the same first bytes have the same bytes in each part of them.
pub proof fn lemma_share_split(a: Seq<u8>, b: Seq<u8>, count: int, further: int)
    requires
        share(a, b, count + further),
        0 <= count,
        0 <= further,
    ensures
        share(a, b, count),
        share(a.skip(count), b.skip(count), further),
        a.skip(count).skip(further) == a.skip(count + further),
        b.skip(count).skip(further) == b.skip(count + further),
        count + further <= a.len(),
        count + further <= b.len(),
{
    reveal(agree);
    reveal(share);
    assert forall|k: int| 0 <= k < further implies #[trigger] a.skip(count)[k] == b.skip(
        count,
    )[k] by {
        assert(a[count + k] == b[count + k]);
    }
    assert(a.skip(count).skip(further) == a.skip(count + further));
    assert(b.skip(count).skip(further) == b.skip(count + further));
}

/// Where no byte is dropped, inputs agree if they have the same first bytes.
pub proof fn lemma_kept_is_shared(a: Seq<u8>, b: Seq<u8>, count: int)
    requires
        0 <= count,
    ensures
        agree(a, b, kept(count)) <==> share(a, b, count),
{
    reveal(agree);
    reveal(share);
    if agree(a, b, kept(count)) {
        assert forall|k: int| 0 <= k < count implies #[trigger] a[k] == b[k] by {
            assert(!kept(count)[k]);
        }
    }
}

/// Inputs with the same first bytes agree in them, whichever of them are dropped.
pub proof fn lemma_shared_agrees(a: Seq<u8>, b: Seq<u8>, count: int, mask: Seq<bool>)
    requires
        share(a, b, count),
        mask.len() <= count,
    ensures
        agree(a, b, mask),
{
    reveal(agree);
    reveal(share);
}

/// Inputs with the same first two bytes start with the same identifier.
pub proof fn lemma_starts_alike(a: Seq<u8>, b: Seq<u8>, mask: Seq<bool>)
    requires
        agree(a, b, mask),
        mask.len() >= 2,
        !mask[0],
        !mask[1],
    ensures
        start_alike(a, b),
{
    reveal(agree);
    reveal(share);
}

/// Inputs with the same first two bytes start with the same identifier.
pub proof fn lemma_shared_identifier(a: Seq<u8>, b: Seq<u8>, count: int)
    requires
        share(a, b, count),
        count >= 2,
    ensures
        start_alike(a, b),
{
    reveal(share);
    assert(a[0] == b[0] && a[1] == b[1]);
}

/// A record of variable size.
pub proof fn lemma_data_record(a: Seq<u8>, b: Seq<u8>, id: u16)
    requires
        data_record(a, id) is Ok,
        share(a, b, taken(a, data_record(a, id))),
    ensures
        6 <= taken(a, data_record(a, id)),
        le16(a) == id,
        left(a, data_record(a, id)) == a.skip(taken(a, data_record(a, id))),
        gives_same(
            data_record(a, id),
            data_record(b, id),
            b.skip(taken(a, data_record(a, id))),
        ),
{
    reveal(data_record);
    reveal(agree);
    reveal(share);
    let n = taken(a, data_record(a, id));
    lemma_share_split(a, b, 2, n - 2);
    lemma_share_split(a.skip(2), b.skip(2), 4, n - 6);
    assert(le16(a) == le16(b));
    assert(le32(a.skip(2)) == le32(b.skip(2)));
    assert(a.skip(2).skip(4).take(n - 6) == b.skip(2).skip(4).take(n - 6));
}

/// A record of variable size whose contents are dropped.
pub proof fn lemma_dropped_record(a: Seq<u8>, b: Seq<u8>, id: u16)
    requires
        data_record(a, id) is Ok,
        agree(a, b, dropped(taken(a, data_record(a, id)))),
    ensures
        6 <= taken(a, data_record(a, id)),
        le16(a) == id,
        left(a, data_record(a, id)) == a.skip(taken(a, data_record(a, id))),
        data_record(b, id) is Ok,
        data_record(b, id)->Ok_0.0 == b.skip(taken(a, data_record(a, id))),
        data_record(b, id)->Ok_0.1.len() == data_record(a, id)->Ok_0.1.len(),
{
    reveal(data_record);
    reveal(agree);
    reveal(share);
    let n = taken(a, data_record(a, id));
    let mask = dropped(n);
    assert(!mask[0] && !mask[1] && !mask[2] && !mask[3] && !mask[4] && !mask[5]);
    assert(share(a, b, 6));
    lemma_share_split(a, b, 2, 4);
    assert(le16(a) == le16(b));
    assert(le32(a.skip(2)) == le32(b.skip(2)));
    assert(a.skip(2).skip(4).skip(n - 6) == a.skip(n));
    assert(b.skip(2).skip(4).skip(n - 6) == b.skip(n));
}

/// Two records of variable size, of which the contents of the second may be dropped.
pub proof fn lemma_two_records(
    a: Seq<u8>,
    b: Seq<u8>,
    id: u16,
    second: u16,
    drops: bool,
    further: Seq<bool>,
)
    requires
        data_record(a, id) is Ok,
        data_record(left(a, data_record(a, id)), second) is Ok,
        agree(a, b, two_records_mask(a, id, second, drops) + further),
    ensures
        gives_same(
            data_record(a, id),
            data_record(b, id),
            b.skip(taken(a, data_record(a, id))),
        ),
        ({
            let n = two_records_mask(a, id, second, drops).len() as int;
            let first = data_record(left(a, data_record(a, id)), second);
            let other = data_record(left(b, data_record(b, id)), second);
            &&& n >= 12
            &&& first is Ok && first->Ok_0.0 == a.skip(n)
            &&& other is Ok && other->Ok_0.0 == b.skip(n)
            &&& first->Ok_0.1.len() == other->Ok_0.1.len()
            &&& !drops ==> first->Ok_0.1 == other->Ok_0.1
            &&& agree(a.skip(n), b.skip(n), further)
            &&& n + further.len() <= a.len()
            &&& n + further.len() <= b.len()
        }),
{
    let t1 = taken(a, data_record(a, id));
    let a1 = left(a, data_record(a, id));
    let t2 = taken(a1, data_record(a1, second));
    let mask = if drops {
        dropped(t2)
    } else {
        kept(t2)
    };
    let n = two_records_mask(a, id, second, drops).len() as int;
    lemma_split(a, b, two_records_mask(a, id, second, drops), further);
    lemma_split(a, b, kept(t1), mask);
    lemma_kept_is_shared(a, b, t1);
    lemma_data_record(a, b, id);
    if drops {
        lemma_dropped_record(a1, b.skip(t1), second);
    } else {
        lemma_kept_is_shared(a1, b.skip(t1), t2);
        lemma_data_record(a1, b.skip(t1), second);
    }
    assert(a.skip(t1).skip(t2) == a.skip(n));
    assert(b.skip(t1).skip(t2) == b.skip(n));
}

/// A record that holds a 32-bit integer.
pub proof fn lemma_u32_record(a: Seq<u8>, b: Seq<u8>, id: u16)
    requires
        u32_record(a, id) is Ok,
        share(a, b, 10),
    ensures
        le16(a) == id,
        taken(a, u32_record(a, id)) == 10,
        left(a, u32_record(a, id)) == a.skip(10),
        gives_same(u32_record(a, id), u32_record(b, id), b.skip(10)),
{
    reveal(u32_record);
    reveal(agree);
    reveal(share);
    lemma_share_split(a, b, 2, 8);
    lemma_share_split(a.skip(2), b.skip(2), 4, 4);
    assert(le16(a) == le16(b));
    assert(le32(a.skip(2)) == le32(b.skip(2)));
    assert(le32(a.skip(2).skip(4)) == le32(b.skip(2).skip(4)));
}

/// A record that holds a 16-bit integer.
pub proof fn lemma_u16_record(a: Seq<u8>, b: Seq<u8>, id: u16)
    requires
        u16_record(a, id) is Ok,
        share(a, b, 8),
    ensures
        le16(a) == id,
        taken(a, u16_record(a, id)) == 8,
        left(a, u16_record(a, id)) == a.skip(8),
        gives_same(u16_record(a, id), u16_record(b, id), b.skip(8)),
{
    reveal(u16_record);
    reveal(agree);
    reveal(share);
    lemma_share_split(a, b, 2, 6);
    lemma_share_split(a.skip(2), b.skip(2), 4, 2);
    assert(le16(a) == le16(b));
    assert(le32(a.skip(2)) == le32(b.skip(2)));
    assert(le16(a.skip(2).skip(4)) == le16(b.skip(2).skip(4)));
}

/// A record that holds a 16-bit integer which is dropped.
pub proof fn lemma_dropped_u16_record(a: Seq<u8>, b: Seq<u8>, id: u16)
    requires
        u16_record(a, id) is Ok,
        agree(a, b, dropped(8)),
    ensures
        le16(a) == id,
        taken(a, u16_record(a, id)) == 8,
        left(a, u16_record(a, id)) == a.skip(8),
        u16_record(b, id) is Ok,
        u16_record(b, id)->Ok_0.0 == b.skip(8),
{
    reveal(u16_record);
    reveal(agree);
    reveal(share);
    let mask = dropped(8);
    assert(!mask[0] && !mask[1] && !mask[2] && !mask[3] && !mask[4] && !mask[5]);
    assert(share(a, b, 6));
    lemma_share_split(a, b, 2, 4);
    assert(le16(a) == le16(b));
    assert(le32(a.skip(2)) == le32(b.skip(2)));
    assert(a.skip(2).skip(4).skip(2) == a.skip(8));
    assert(b.skip(2).skip(4).skip(2) == b.skip(8));
}

/// Six bytes: an identifier and a size of zero, or the reverse.
pub proof fn lemma_six_bytes(a: Seq<u8>, b: Seq<u8>)
    requires
        share(a, b, 6),
    ensures
        le16(a) == le16(b),
        le32(a) == le32(b),
        le32(a.skip(2)) == le32(b.skip(2)),
        le16(a.skip(4)) == le16(b.skip(4)),
        a.skip(2).skip(4) == a.skip(6),
        a.skip(4).skip(2) == a.skip(6),
        b.skip(2).skip(4) == b.skip(6),
        b.skip(4).skip(2) == b.skip(6),
{
    reveal(agree);
    reveal(share);
    lemma_share_split(a, b, 2, 4);
    lemma_share_split(a, b, 4, 2);
}

/// A record of variable size leaves what stands behind it.
pub proof fn lemma_record_leaves_rest(input: Seq<u8>, id: u16)
    ensures
        data_record(input, id) is Ok ==> {
            &&& 6 <= taken(input, data_record(input, id)) <= input.len()
            &&& left(input, data_record(input, id)) == input.skip(
                taken(input, data_record(input, id)),
            )
        },
{
    reveal(data_record);
    if data_record(input, id) is Ok {
        let n = taken(input, data_record(input, id));
        assert(input.skip(2).skip(4).skip(n - 6) == input.skip(n));
    }
}

/// A record that holds an integer leaves what stands behind it.
pub proof fn lemma_integer_record_leaves_rest(input: Seq<u8>, id: u16)
    ensures
        u32_record(input, id) is Ok ==> left(input, u32_record(input, id)) == input.skip(10),
        u16_record(input, id) is Ok ==> left(input, u16_record(input, id)) == input.skip(8),
{
    reveal(u16_record);
    reveal(u32_record);
    if u32_record(input, id) is Ok {
        assert(input.skip(2).skip(4).skip(4) == input.skip(10));
    }
    if u16_record(input, id) is Ok {
        assert(input.skip(2).skip(4).skip(2) == input.skip(8));
    }
}

/// A record of variable size is not found where another identifier stands.
pub proof fn lemma_other_identifier(input: Seq<u8>, id: u16)
    requires
        input.len() >= 2,
        le16(input) != id,
    ensures
        data_record(input, id) is Err,
        !(data_record(input, id)->Err_0 is Incomplete),
{
    reveal(data_record);
}

} // verus!
