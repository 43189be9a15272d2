//! Which paths denote the same place in a compound file.

use vstd::prelude::*;
use vstd::string::StrSliceExecFns;
use vstd::utf8::is_ascii_chars;

use crate::module_stream::stream_path;

verus! {

/// The upper case of an ASCII letter, and any other character as it is.
pub open spec fn ascii_upper(c: char) -> char {
    if 'a' <= c && c <= 'z' {
        (c as u32 - 32) as char
    } else {
        c
    }
}

/// A text in upper case, where it is not ASCII: what `str::to_uppercase` returns.
pub uninterp spec fn uppercased(text: Seq<char>) -> Seq<char>;

/// A text in upper case.
pub open spec fn upper(text: Seq<char>) -> Seq<char> {
    if is_ascii_chars(text) {
        text.map_values(|c: char| ascii_upper(c))
    } else {
        uppercased(text)
    }
}

/// The number of code units of a text in UTF-16.
pub open spec fn utf16_length(text: Seq<char>) -> nat
    decreases text.len(),
{
    if text.len() == 0 {
        0
    } else {
        utf16_length(text.drop_last()) + (if text.last() as u32 >= 0x1_0000 {
            2nat
        } else {
            1nat
        })
    }
}

/// Whether two names are taken for the same: the case of letters does not matter, as long as the
/// names have the same length in UTF-16.
pub open spec fn same_name(name: Seq<char>, other: Seq<char>) -> bool {
    utf16_length(name) == utf16_length(other) && upper(name) == upper(other)
}

/// The names from the root down, after a further part of a path.
///
/// A dot stays where it is, and two dots go up. There is nothing above the root.
pub open spec fn descend(names: Seq<Seq<char>>, part: Seq<char>) -> Option<Seq<Seq<char>>> {
    if part.len() == 0 || part == seq!['.'] {
        Some(names)
    } else if part == seq!['.', '.'] {
        if names.len() == 0 {
            None
        } else {
            Some(names.drop_last())
        }
    } else {
        Some(names.push(part))
    }
}

/// The names from the root down, after the rest of a path, of which a part has been begun.
pub open spec fn place_from(
    names: Seq<Seq<char>>,
    part: Seq<char>,
    rest: Seq<char>,
) -> Option<Seq<Seq<char>>>
    decreases rest.len(),
{
    if rest.len() == 0 {
        descend(names, part)
    } else if rest[0] == '/' {
        match descend(names, part) {
            Some(deeper) => place_from(deeper, Seq::empty(), rest.skip(1)),
            None => None,
        }
    } else {
        place_from(names, part.push(rest[0]), rest.skip(1))
    }
}

/// The names from the root down to the place that a path denotes, if it denotes one.
///
/// The parts of a path are separated by slashes.
pub open spec fn place(path: Seq<char>) -> Option<Seq<Seq<char>>> {
    place_from(Seq::empty(), Seq::empty(), path)
}

/// Whether two sequences of names are taken for the same.
pub open spec fn same_names(names: Seq<Seq<char>>, others: Seq<Seq<char>>) -> bool {
    &&& names.len() == others.len()
    &&& forall|k: int| 0 <= k < names.len() ==> same_name(#[trigger] names[k], others[k])
}

/// Whether two paths denote the same place in a compound file.
pub open spec fn same_place(path: Seq<char>, other: Seq<char>) -> bool {
    place(path) matches Some(names) && place(other) matches Some(others) && same_names(
        names,
        others,
    )
}

/// Whether a name is that of a stream: it is not empty, has no slash, and does not consist of one
/// or two dots.
pub open spec fn is_plain(name: Seq<char>) -> bool {
    &&& name.len() > 0
    &&& forall|k: int| 0 <= k < name.len() ==> #[trigger] name[k] != '/'
    &&& name != seq!['.']
    &&& name != seq!['.', '.']
}

/// Turns a text into upper case.
///
/// Calls `str::to_uppercase`. Of ASCII characters, the letters are turned into the capital ASCII
/// letters, and the others stay as they are.
#[verifier::external_body]
fn to_uppercase(text: &str) -> (result: String)
    ensures
        is_ascii_chars(text@) ==> result@ == text@.map_values(|c: char| ascii_upper(c)),
        !is_ascii_chars(text@) ==> result@ == uppercased(text@),
{
    text.to_uppercase()
}

/// The texts in a list.
pub open spec fn texts_of(list: Seq<String>) -> Seq<Seq<char>> {
    list.map_values(|text: String| text@)
}

/// Counts the code units of a text in UTF-16.
fn count_utf16(text: &str) -> (length: u128)
    ensures
        length == utf16_length(text@),
{
    let count: usize = text.unicode_len();
    let mut length: u128 = 0;
    let mut k: usize = 0;
    assert(text@.take(0) == Seq::<char>::empty());
    while k < count
        invariant
            k <= count,
            count == text@.len(),
            length == utf16_length(text@.take(k as int)),
            length <= 2 * k,
        decreases count - k,
    {
        let units: u128 = if text.get_char(k) as u32 >= 0x1_0000 {
            2
        } else {
            1
        };
        assert(text@.take(k + 1).drop_last() == text@.take(k as int));
        length = length + units;
        k = k + 1;
    }
    assert(text@.take(k as int) == text@);
    length
}

/// Whether two names are taken for the same.
pub fn is_same_name(name: &str, other: &str) -> (same: bool)
    ensures
        same == same_name(name@, other@),
{
    count_utf16(name) == count_utf16(other) && to_uppercase(name) == to_uppercase(other)
}

/// Adds a further part of a path to the names from the root down.
fn add_part(names: &mut Vec<String>, part: &str) -> (inside: bool)
    ensures
        match descend(texts_of(old(names)@), part@) {
            Some(deeper) => inside && texts_of(final(names)@) == deeper,
            None => !inside,
        },
{
    let length: usize = part.unicode_len();
    if length == 0 {
        return true;
    }
    if length == 1 && part.get_char(0) == '.' {
        assert(part@ == seq!['.']);
        return true;
    }
    if length == 2 && part.get_char(0) == '.' && part.get_char(1) == '.' {
        assert(part@ == seq!['.', '.']);
        let ghost before = names@;
        let popped = names.pop();
        assert(popped is Some ==> texts_of(names@) == texts_of(before).drop_last());
        return popped.is_some();
    }
    let ghost before = names@;
    names.push(part.to_owned());
    assert(texts_of(names@) == texts_of(before).push(part@));
    true
}

/// Finds the names from the root down to the place that a path denotes.
fn find_place(path: &str) -> (found: Option<Vec<String>>)
    ensures
        match found {
            Some(names) => place(path@) == Some(texts_of(names@)),
            None => place(path@) is None,
        },
{
    let count: usize = path.unicode_len();
    let mut names: Vec<String> = Vec::new();
    let mut start: usize = 0;
    let mut k: usize = 0;
    assert(texts_of(names@) == Seq::<Seq<char>>::empty());
    assert(path@.subrange(0, 0) == Seq::<char>::empty());
    assert(path@.skip(0) == path@);
    while k < count
        invariant
            start <= k <= count,
            count == path@.len(),
            place(path@) == place_from(
                texts_of(names@),
                path@.subrange(start as int, k as int),
                path@.skip(k as int),
            ),
        decreases count - k,
    {
        assert(path@.skip(k as int).skip(1) == path@.skip(k + 1));
        if path.get_char(k) == '/' {
            if !add_part(&mut names, path.substring_char(start, k)) {
                return None;
            }
            start = k + 1;
            assert(path@.subrange(start as int, k + 1) == Seq::<char>::empty());
        } else {
            assert(path@.subrange(start as int, k as int).push(path@[k as int]) == path@.subrange(
                start as int,
                k + 1,
            ));
        }
        k = k + 1;
    }
    if add_part(&mut names, path.substring_char(start, count)) {
        Some(names)
    } else {
        None
    }
}

/// Whether two paths denote the same place in a compound file.
pub fn is_same_place(path: &str, other: &str) -> (same: bool)
    ensures
        same == same_place(path@, other@),
{
    let (names, others) = match (find_place(path), find_place(other)) {
        (Some(names), Some(others)) => (names, others),
        _ => {
            return false;
        },
    };
    if names.len() != others.len() {
        return false;
    }
    let ghost all = texts_of(names@);
    let ghost all_others = texts_of(others@);
    let mut k: usize = 0;
    while k < names.len()
        invariant
            k <= names.len(),
            names.len() == others.len(),
            all == texts_of(names@),
            all_others == texts_of(others@),
            place(path@) == Some(all),
            place(other@) == Some(all_others),
            forall|j: int| 0 <= j < k ==> same_name(#[trigger] all[j], all_others[j]),
        decreases names.len() - k,
    {
        if !is_same_name(&names[k], &others[k]) {
            assert(!same_name(all[k as int], all_others[k as int]));
            return false;
        }
        k = k + 1;
    }
    true
}

/// The names from the root down, after the rest of a path without slashes.
proof fn lemma_last_part(names: Seq<Seq<char>>, part: Seq<char>, rest: Seq<char>)
    requires
        forall|k: int| 0 <= k < rest.len() ==> #[trigger] rest[k] != '/',
    ensures
        place_from(names, part, rest) == descend(names, part + rest),
    decreases rest.len(),
{
    if rest.len() == 0 {
        assert(part + rest == part);
    } else {
        lemma_last_part(names, part.push(rest[0]), rest.skip(1));
        assert(part.push(rest[0]) + rest.skip(1) == part + rest);
    }
}

/// The stream with a plain name lies in the storage of the project's code.
pub proof fn lemma_plain_stream_is_in_storage(name: Seq<char>)
    requires
        is_plain(name),
    ensures
        place(stream_path(name)) == Some(seq!["VBA"@, name]),
{
    reveal_strlit("/VBA/");
    reveal_strlit("VBA");
    let root = Seq::<Seq<char>>::empty();
    let none = Seq::<char>::empty();
    let path = "/VBA/"@ + name;
    assert(name[0] != '/');
    assert(path.skip(1)[0] == 'V');
    assert(path.skip(1).skip(1)[0] == 'B');
    assert(path.skip(1).skip(1).skip(1)[0] == 'A');
    assert(path.skip(1).skip(1).skip(1).skip(1)[0] == '/');
    assert(path.skip(1).skip(1).skip(1).skip(1).skip(1) == name);
    assert(place_from(root, none, path) == place_from(root, none, path.skip(1)));
    assert(place_from(root, none, path.skip(1)) == place_from(
        root,
        none.push('V'),
        path.skip(1).skip(1),
    ));
    assert(place_from(root, none.push('V'), path.skip(1).skip(1)) == place_from(
        root,
        none.push('V').push('B'),
        path.skip(1).skip(1).skip(1),
    ));
    assert(place_from(root, none.push('V').push('B'), path.skip(1).skip(1).skip(1)) == place_from(
        root,
        none.push('V').push('B').push('A'),
        path.skip(1).skip(1).skip(1).skip(1),
    ));
    assert(none.push('V').push('B').push('A') == "VBA"@);
    assert(descend(root, "VBA"@) == Some(root.push("VBA"@)));
    lemma_last_part(root.push("VBA"@), none, name);
    assert(none + name == name);
    assert(root.push("VBA"@).push(name) == seq!["VBA"@, name]);
}

/// The streams with two plain names are the same if and only if the names are.
pub proof fn lemma_plain_streams_differ_by_name(name: Seq<char>, other: Seq<char>)
    requires
        is_plain(name),
        is_plain(other),
    ensures
        same_place(stream_path(name), stream_path(other)) <==> same_name(name, other),
{
    lemma_plain_stream_is_in_storage(name);
    lemma_plain_stream_is_in_storage(other);
    let names = seq!["VBA"@, name];
    let others = seq!["VBA"@, other];
    assert(names[1] == name && others[1] == other);
    assert(names[0] == others[0]);
    if same_names(names, others) {
        assert(same_name(names[1], others[1]));
    }
}

/// What stands behind a slash is the last part of a path.
proof fn lemma_part_behind_slash(
    names: Seq<Seq<char>>,
    part: Seq<char>,
    rest: Seq<char>,
    last: Seq<char>,
)
    requires
        forall|k: int| 0 <= k < last.len() ==> #[trigger] last[k] != '/',
    ensures
        place_from(names, part, rest + seq!['/'] + last) == match place_from(names, part, rest) {
            Some(deeper) => descend(deeper, last),
            None => None,
        },
    decreases rest.len(),
{
    let path = rest + seq!['/'] + last;
    if rest.len() == 0 {
        assert(path[0] == '/');
        assert(path.skip(1) == last);
        if let Some(deeper) = descend(names, part) {
            lemma_last_part(deeper, Seq::empty(), last);
            assert(Seq::<char>::empty() + last == last);
        }
    } else {
        assert(path[0] == rest[0]);
        assert(path.skip(1) == rest.skip(1) + seq!['/'] + last);
        if rest[0] == '/' {
            if let Some(deeper) = descend(names, part) {
                lemma_part_behind_slash(deeper, Seq::empty(), rest.skip(1), last);
            }
        } else {
            lemma_part_behind_slash(names, part.push(rest[0]), rest.skip(1), last);
        }
    }
}

/// A path denotes a place from the root down, part by part: a part that is empty or a dot stays,
/// two dots go up, which is not possible from the root, and every other part goes down to what has
/// that name.
pub proof fn lemma_place_by_parts(path: Seq<char>, part: Seq<char>)
    requires
        forall|k: int| 0 <= k < part.len() ==> #[trigger] part[k] != '/',
    ensures
        place(Seq::empty()) == Some(Seq::<Seq<char>>::empty()),
        place(part) == place(seq!['/'] + part),
        place(path) is None ==> place(path + seq!['/'] + part) is None,
        place(path) matches Some(names) ==> if part.len() == 0 || part == seq!['.'] {
            place(path + seq!['/'] + part) == Some(names)
        } else if part == seq!['.', '.'] {
            if names.len() == 0 {
                place(path + seq!['/'] + part) is None
            } else {
                place(path + seq!['/'] + part) == Some(names.drop_last())
            }
        } else {
            place(path + seq!['/'] + part) == Some(names.push(part))
        },
{
    let root = Seq::<Seq<char>>::empty();
    let none = Seq::<char>::empty();
    lemma_part_behind_slash(root, none, path, part);
    lemma_part_behind_slash(root, none, none, part);
    assert(none + seq!['/'] + part == seq!['/'] + part);
    lemma_last_part(root, none, part);
    assert(none + part == part);
}

/// The length of a text in UTF-16 counts one for every character, and one more for those beyond the
/// first 65536.
pub proof fn lemma_utf16_length(text: Seq<char>, c: char)
    ensures
        utf16_length(Seq::empty()) == 0,
        utf16_length(text.push(c)) == utf16_length(text) + if c as u32 > 0xffff {
            2nat
        } else {
            1nat
        },
{
    assert(text.push(c).drop_last() == text);
}

/// The length of an ASCII text in UTF-16 is its length.
proof fn lemma_ascii_length(text: Seq<char>)
    requires
        is_ascii_chars(text),
    ensures
        utf16_length(text) == text.len(),
    decreases text.len(),
{
    if text.len() > 0 {
        assert(is_ascii_chars(text.drop_last()));
        lemma_ascii_length(text.drop_last());
        assert(text.last() == text[text.len() - 1]);
    }
}

/// Two ASCII names are the same if and only if they have the same characters, where the case of
/// letters does not matter. Other names are the same if and only if they have the same length in
/// UTF-16 and are the same in upper case.
pub proof fn lemma_same_name(name: Seq<char>, other: Seq<char>)
    ensures
        is_ascii_chars(name) && is_ascii_chars(other) ==> (same_name(name, other) <==> name.len()
            == other.len() && forall|k: int|
            0 <= k < name.len() ==> is_same_letter(#[trigger] name[k], other[k])),
        !is_ascii_chars(name) && !is_ascii_chars(other) ==> (same_name(name, other)
            <==> utf16_length(name) == utf16_length(other) && uppercased(name) == uppercased(
            other,
        )),
        same_name(name, name),
        same_name(name, other) <==> same_name(other, name),
{
    if is_ascii_chars(name) && is_ascii_chars(other) {
        lemma_ascii_length(name);
        lemma_ascii_length(other);
        if same_name(name, other) {
            assert forall|k: int| 0 <= k < name.len() implies is_same_letter(
                #[trigger] name[k],
                other[k],
            ) by {
                assert(upper(name)[k] == ascii_upper(name[k]));
                assert(upper(other)[k] == ascii_upper(other[k]));
            }
        }
        if name.len() == other.len() && forall|k: int|
            0 <= k < name.len() ==> is_same_letter(#[trigger] name[k], other[k]) {
            assert forall|k: int| 0 <= k < name.len() implies upper(name)[k] == upper(other)[k] by {
                assert(is_same_letter(name[k], other[k]));
            }
            assert(upper(name) == upper(other));
        }
    }
}

/// Whether two characters are the same, or the same ASCII letter, one of them in lower and one in
/// upper case.
pub open spec fn is_same_letter(c: char, other: char) -> bool {
    ||| c == other
    ||| 'a' <= c && c <= 'z' && other as u32 + 32 == c as u32
    ||| 'a' <= other && other <= 'z' && c as u32 + 32 == other as u32
}

/// Two paths denote the same place if and only if both denote one, and they lead down to it by names
/// that are the same.
pub proof fn lemma_same_place(path: Seq<char>, other: Seq<char>)
    ensures
        same_place(path, other) <==> match (place(path), place(other)) {
            (Some(names), Some(others)) => names.len() == others.len() && forall|k: int|
                0 <= k < names.len() ==> same_name(#[trigger] names[k], others[k]),
            _ => false,
        },
        same_place(path, other) <==> same_place(other, path),
        place(path) is Some ==> same_place(path, path),
{
    if let (Some(names), Some(others)) = (place(path), place(other)) {
        assert forall|k: int| 0 <= k < names.len() implies same_name(names[k], others[k])
            == same_name(others[k], names[k]) by {
            lemma_same_name(names[k], others[k]);
        }
        if same_names(names, others) {
            assert forall|k: int| 0 <= k < others.len() implies same_name(
                #[trigger] others[k],
                names[k],
            ) by {
                assert(same_name(names[k], others[k]));
            }
        }
        if same_names(others, names) {
            assert forall|k: int| 0 <= k < names.len() implies same_name(
                #[trigger] names[k],
                others[k],
            ) by {
                assert(same_name(others[k], names[k]));
            }
        }
    }
    if let Some(names) = place(path) {
        assert forall|k: int| 0 <= k < names.len() implies same_name(#[trigger] names[k], names[k])
            by {
            lemma_same_name(names[k], names[k]);
        }
    }
}

} // verus!
