//! The stream of a module: where it is found, and how its source code is read and replaced.

use vstd::prelude::*;
use vstd::string::{StrSliceExecFns, StringExecFns};

use crate::bytes::skip;
use crate::compression::{compress, compressed};
use crate::decompression::{decompressed, try_decompress};
use crate::error::{yields, Error, ErrorView};
use crate::format::Model;
use crate::modules::{Module, ModuleView};
use crate::round_trip::{
    lemma_compressed_is_empty_only_for_nothing, lemma_decompressed_inverts_compressed, single_chunk,
};

verus! {

/// The first module of the given name.
pub open spec fn module_named(modules: Seq<ModuleView>, name: Seq<char>) -> Option<ModuleView>
    decreases modules.len(),
{
    if modules.len() == 0 {
        None
    } else if modules[0].name == name {
        Some(modules[0])
    } else {
        module_named(modules.skip(1), name)
    }
}

/// The path of the stream with the given name.
///
/// It lies in the storage of the project's code, unless its name starts at the root.
pub open spec fn stream_path(stream_name: Seq<char>) -> Seq<char> {
    if stream_name.len() > 0 && stream_name[0] == '/' {
        stream_name
    } else {
        "/VBA/"@ + stream_name
    }
}

/// The source code that is held by a module's stream from `offset` on.
///
/// There is no answer where there is none for the compressed container.
pub open spec fn source_from(data: Seq<u8>, offset: nat) -> Option<Result<Seq<u8>, ErrorView>> {
    if offset >= data.len() {
        Some(Err(ErrorView::Decompressor))
    } else {
        match decompressed(data.skip(offset as int)) {
            Some(Ok((_, source))) => Some(Ok(source)),
            Some(Err(_)) => Some(Err(ErrorView::Decompressor)),
            None => None,
        }
    }
}

/// The digit that stands for a number below ten.
pub open spec fn digit(value: int) -> char {
    (value + '0' as u32) as char
}

/// The decimal digits of a number.
pub open spec fn decimal(value: nat) -> Seq<char>
    decreases value,
{
    if value < 10 {
        seq![digit(value as int)]
    } else {
        decimal(value / 10).push(digit((value % 10) as int))
    }
}

/// The stream that holds the given source code behind the bytes in front of the source code of a
/// module.
///
/// The source code has to take up some room, but no more than a chunk has.
pub open spec fn stream_with(cache: Seq<u8>, source: Seq<u8>) -> Result<Seq<u8>, ErrorView> {
    let content = compressed(source);
    if content.len() == 0 {
        Err(ErrorView::Generic("Compressed data part is empty, cannot form header"@))
    } else if content.len() > 0x1000 {
        Err(
            ErrorView::Generic(
                "Compressed data part too large ("@ + decimal(content.len())
                    + ") for chunk size field (max 4096)"@,
            ),
        )
    } else {
        Ok(cache + single_chunk(content))
    }
}

/// Finds the first module of the given name.
pub fn find_module<'a>(modules: &'a Vec<Module>, name: &str) -> (found: Option<&'a Module>)
    ensures
        match found {
            Some(module) => module_named(modules.model(), name@) == Some(module.model()),
            None => module_named(modules.model(), name@) is None,
        },
{
    let ghost all = modules.model();
    let wanted = name.to_owned();
    let mut k: usize = 0;
    assert(all.skip(0) == all);
    while k < modules.len()
        invariant
            k <= modules.len(),
            all == modules.model(),
            wanted@ == name@,
            module_named(all.skip(k as int), name@) == module_named(all, name@),
        decreases modules.len() - k,
    {
        let module = &modules[k];
        assert(all[k as int] == module.model());
        if module.name == wanted {
            return Some(module);
        }
        assert(all.skip(k as int).skip(1) == all.skip(k + 1));
        k = k + 1;
    }
    None
}

/// Builds the path of the stream with the given name.
pub fn path_of_stream(stream_name: &str) -> (path: String)
    ensures
        path@ == stream_path(stream_name@),
{
    if !stream_name.is_empty() && stream_name.get_char(0) == '/' {
        stream_name.to_owned()
    } else {
        let mut path = "/VBA/".to_owned();
        path.append(stream_name);
        path
    }
}

/// Reads the source code that is held by a module's stream from `offset` on, whatever bytes it
/// consists of.
pub fn try_source_from(data: &[u8], offset: usize) -> (result: Option<Result<Vec<u8>, Error>>)
    ensures
        match result {
            Some(answer) => source_from(data@, offset as nat) is Some && yields(
                answer,
                source_from(data@, offset as nat)->0,
            ),
            None => source_from(data@, offset as nat) is None,
        },
{
    if offset >= data.len() {
        return Some(Err(Error::Decompressor));
    }
    match try_decompress(skip(data, offset)) {
        Some(Ok((_, source))) => Some(Ok(source)),
        Some(Err(_)) => Some(Err(Error::Decompressor)),
        None => None,
    }
}

/// Appends the decimal digits of a number.
fn append_decimal(text: &mut String, value: usize)
    ensures
        final(text)@ == old(text)@ + decimal(value as nat),
    decreases value,
{
    proof {
        reveal_strlit("0");
        reveal_strlit("1");
        reveal_strlit("2");
        reveal_strlit("3");
        reveal_strlit("4");
        reveal_strlit("5");
        reveal_strlit("6");
        reveal_strlit("7");
        reveal_strlit("8");
        reveal_strlit("9");
    }
    if value >= 10 {
        append_decimal(text, value / 10);
    }
    let ghost before = text@;
    text.append(
        match value % 10 {
            0 => "0",
            1 => "1",
            2 => "2",
            3 => "3",
            4 => "4",
            5 => "5",
            6 => "6",
            7 => "7",
            8 => "8",
            _ => "9",
        },
    );
    assert(text@ == before.push(digit((value % 10) as int)));
}

/// Builds the stream that holds the given source code behind the bytes in front of the source
/// code of a module.
pub fn build_stream(cache: &[u8], source: &[u8]) -> (result: Result<Vec<u8>, Error>)
    ensures
        yields(result, stream_with(cache@, source@)),
{
    let content = compress(source)?;
    let size: usize = content.len();
    if size == 0 {
        return Err(
            Error::Generic("Compressed data part is empty, cannot form header".to_owned()),
        );
    }
    if size > 0x1000 {
        let mut reason = "Compressed data part too large (".to_owned();
        append_decimal(&mut reason, size);
        reason.append(") for chunk size field (max 4096)");
        return Err(Error::Generic(reason));
    }
    let header: u16 = 0xb000 + (size - 1) as u16;
    let mut stream: Vec<u8> = Vec::new();
    stream.extend_from_slice(cache);
    stream.push(0x01);
    stream.push((header % 0x100) as u8);
    stream.push((header / 0x100) as u8);
    stream.extend_from_slice(&content);
    assert(stream@ == cache@ + single_chunk(content@));
    Ok(stream)
}

/// Source code that was put into a module's stream is read back from it.
pub proof fn lemma_source_is_read_back(cache: Seq<u8>, source: Seq<u8>)
    requires
        stream_with(cache, source) is Ok,
    ensures
        source_from(stream_with(cache, source)->Ok_0, cache.len()) == Some(
            Ok::<Seq<u8>, ErrorView>(source),
        ),
{
    let stream = cache + single_chunk(compressed(source));
    assert(stream.skip(cache.len() as int) == single_chunk(compressed(source)));
    lemma_decompressed_inverts_compressed(source);
}

/// The bytes in front of a module's source code stay in front of it, whatever it is replaced by.
pub proof fn lemma_cache_is_kept(cache: Seq<u8>, source: Seq<u8>)
    ensures
        stream_with(cache, source) matches Ok(stream) ==> stream.take(cache.len() as int) == cache,
{
    assert((cache + single_chunk(compressed(source))).take(cache.len() as int) == cache);
}

/// Empty source code is rejected, and nothing else is for being empty.
pub proof fn lemma_empty_source_is_rejected(cache: Seq<u8>, source: Seq<u8>)
    ensures
        stream_with(cache, source) == Err::<Seq<u8>, ErrorView>(
            ErrorView::Generic("Compressed data part is empty, cannot form header"@),
        ) <==> source.len() == 0,
{
    lemma_compressed_is_empty_only_for_nothing(source);
    reveal_strlit("Compressed data part is empty, cannot form header");
    reveal_strlit("Compressed data part too large (");
    let size = decimal(compressed(source).len());
    let too_large = "Compressed data part too large ("@ + size
        + ") for chunk size field (max 4096)"@;
    assert(too_large[21] == 't');
    assert("Compressed data part is empty, cannot form header"@[21] == 'i');
}

} // verus!
