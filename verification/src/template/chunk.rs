use super::window::Window;
use vstd::prelude::*;

verus! {

/// The byte `{`: two of them open a variable.
pub const OPEN: u8 = 0x7B;

/// The byte `}`: two of them close a variable.
pub const CLOSE: u8 = 0x7D;

/// Why a text is no template.
#[derive(Debug, PartialEq, Eq, Structural, Clone, Copy)]
pub enum Error {
    LiteralCanNotStartWithTwoBraces,
    UnmatchedVariable,
}

/// A part of a template: text to copy, or the name of a variable to replace.
/// The window of a variable spans its name, without the braces around it.
#[derive(Debug, PartialEq, Eq, Structural, Clone, Copy)]
pub enum Chunk {
    Literal(Window),
    Variable(Window),
}

/// Whether the byte `mark` stands at `at` and again right after it.
pub open spec fn doubled(text: Seq<u8>, at: int, mark: u8) -> bool {
    0 <= at && at + 1 < text.len() && text[at] == mark && text[at + 1] == mark
}

/// The number of bytes from `from` up to the first doubled `mark` that begins
/// at `from` or later, or up to the end of `text` where there is none.
pub open spec fn distance(text: Seq<u8>, from: int, mark: u8) -> nat
    decreases text.len() - from,
{
    if from < 0 || from >= text.len() || doubled(text, from, mark) {
        0
    } else {
        1 + distance(text, from + 1, mark)
    }
}

/// The literal chunk that begins `rest`, the remainder of a source text from
/// `offset` on, with its length; an error where `rest` is empty or opens a
/// variable.
pub open spec fn literal_chunk(rest: Seq<u8>, offset: int) -> Result<(Chunk, nat), Error> {
    let length = distance(rest, 0, OPEN);
    if length > 0 {
        Ok((Chunk::Literal(Window { offset: offset as usize, length: length as usize }), length))
    } else {
        Err(Error::LiteralCanNotStartWithTwoBraces)
    }
}

/// The variable chunk that begins `rest`, the remainder of a source text from
/// `offset` on, with its length, braces included; an error where nothing
/// closes it. The first two bytes of `rest` count as the opening braces.
pub open spec fn variable_chunk(rest: Seq<u8>, offset: int) -> Result<(Chunk, nat), Error> {
    let length = distance(rest, 2, CLOSE);
    if doubled(rest, 2 + length as int, CLOSE) {
        Ok(
            (
                Chunk::Variable(Window { offset: (offset + 2) as usize, length: length as usize }),
                length + 4,
            ),
        )
    } else {
        Err(Error::UnmatchedVariable)
    }
}

/// The chunk that begins at `at` in `source`, with its length.
pub open spec fn chunk_at(source: Seq<u8>, at: int) -> Result<(Chunk, nat), Error> {
    if doubled(source, at, OPEN) {
        variable_chunk(source.skip(at), at)
    } else {
        literal_chunk(source.skip(at), at)
    }
}

/// The chunks of `source` from `at` on, in order, or the first error met.
pub open spec fn chunks_from(source: Seq<u8>, at: int) -> Result<Seq<Chunk>, Error>
    decreases source.len() - at,
    via lemma_chunks_from_decreases
{
    if at < 0 || at >= source.len() {
        Ok(Seq::empty())
    } else {
        match chunk_at(source, at) {
            Ok((chunk, length)) => match chunks_from(source, at + length) {
                Ok(others) => Ok(seq![chunk] + others),
                Err(error) => Err(error),
            },
            Err(error) => Err(error),
        }
    }
}

#[via_fn]
proof fn lemma_chunks_from_decreases(source: Seq<u8>, at: int) {
    if 0 <= at < source.len() {
        lemma_chunk_length(source, at);
    }
}

/// The chunks of `source`, or the error that makes it no template.
pub open spec fn chunks_of(source: Seq<u8>) -> Result<Seq<Chunk>, Error> {
    chunks_from(source, 0)
}

/// Whether `mark` stands at `index` and again right after it.
pub(crate) fn holds_pair(input: &[u8], index: usize, mark: u8) -> (found: bool)
    ensures
        found == doubled(input@, index as int, mark),
{
    index < input.len() && input.len() - index >= 2 && input[index] == mark && input[index + 1]
        == mark
}

/// Reads a variable at the start of `input`, which is what is left of a
/// source text from `offset` on: the name runs from behind the two opening
/// braces up to the first two closing braces. The result is the chunk and the
/// number of bytes read, braces included.
pub fn parse_variable(input: &[u8], offset: usize) -> (result: Result<(Chunk, usize), Error>)
    requires
        offset + input@.len() <= usize::MAX,
    ensures
        match result {
            Ok((chunk, length)) => variable_chunk(input@, offset as int) == Ok::<
                (Chunk, nat),
                Error,
            >((chunk, length as nat)),
            Err(error) => variable_chunk(input@, offset as int) == Err::<(Chunk, nat), Error>(
                error,
            ),
        },
{
    let mut index: usize = 2;
    while index < input.len() && !holds_pair(input, index, CLOSE)
        invariant
            2 <= index,
            index <= input@.len() || input@.len() < 2,
            2 + distance(input@, 2, CLOSE) == index + distance(input@, index as int, CLOSE),
        decreases input@.len() - index,
    {
        index += 1;
    }
    if holds_pair(input, index, CLOSE) {
        Ok((Chunk::Variable(Window::new(offset + 2, index - 2)), index + 2))
    } else {
        Err(Error::UnmatchedVariable)
    }
}

/// Reads a literal at the start of `input`, which is what is left of a
/// source text from `offset` on: it runs up to the next two opening braces,
/// or to the end. The result is the chunk and the number of bytes read.
pub fn parse_literal(input: &[u8], offset: usize) -> (result: Result<(Chunk, usize), Error>)
    ensures
        match result {
            Ok((chunk, length)) => literal_chunk(input@, offset as int) == Ok::<
                (Chunk, nat),
                Error,
            >((chunk, length as nat)),
            Err(error) => literal_chunk(input@, offset as int) == Err::<(Chunk, nat), Error>(
                error,
            ),
        },
{
    let mut index: usize = 0;
    while index < input.len() && !holds_pair(input, index, OPEN)
        invariant
            index <= input@.len(),
            distance(input@, 0, OPEN) == index + distance(input@, index as int, OPEN),
        decreases input@.len() - index,
    {
        index += 1;
    }
    if index > 0 {
        Ok((Chunk::Literal(Window::new(offset, index)), index))
    } else {
        Err(Error::LiteralCanNotStartWithTwoBraces)
    }
}

/// Where in the source a chunk begins: a variable begins with its braces.
pub open spec fn start_of(chunk: Chunk) -> int {
    match chunk {
        Chunk::Literal(window) => window.offset as int,
        Chunk::Variable(window) => window.offset - 2,
    }
}

/// Where in the source a chunk ends: a variable ends with its braces.
pub open spec fn end_of(chunk: Chunk) -> int {
    match chunk {
        Chunk::Literal(window) => window.spec_end(),
        Chunk::Variable(window) => window.spec_end() + 2,
    }
}

/// Whether a chunk is in its place in `source`: a literal is not empty and
/// ends within the source, a variable has two opening braces right before its
/// name and two closing braces right after it.
pub open spec fn fits(source: Seq<u8>, chunk: Chunk) -> bool {
    match chunk {
        Chunk::Literal(window) => window.length > 0 && window.spec_end() <= source.len(),
        Chunk::Variable(window) => doubled(source, window.offset - 2, OPEN) && doubled(
            source,
            window.spec_end(),
            CLOSE,
        ),
    }
}

/// Where the chunk numbered `index` has to begin for `chunks` to follow each
/// other from `from` on: the first at `from`, each of the others where the one
/// before it ends. For the number of chunks, it is where the last chunk ends.
pub open spec fn seam(chunks: Seq<Chunk>, index: int, from: int) -> int {
    if index <= 0 {
        from
    } else {
        end_of(chunks[index - 1])
    }
}

/// Whether `chunks` cover `source` from `from` on, each byte once: every chunk
/// is in its place, the first begins at `from`, each of the others where the
/// one before it ends, and the last ends where the source ends.
pub open spec fn tiles(source: Seq<u8>, chunks: Seq<Chunk>, from: int) -> bool {
    &&& forall|index: int| 0 <= index < chunks.len() ==> fits(source, #[trigger] chunks[index])
    &&& forall|index: int|
        0 <= index < chunks.len() ==> start_of(chunks[index]) == #[trigger] seam(
            chunks,
            index,
            from,
        )
    &&& source.len() == seam(chunks, chunks.len() as int, from)
}

/// What `distance` measures: it ends within the text, at a doubled `mark` or
/// at the end, and no doubled `mark` begins before that.
pub proof fn lemma_distance(text: Seq<u8>, from: int, mark: u8)
    requires
        0 <= from <= text.len(),
    ensures
        from + distance(text, from, mark) <= text.len(),
        from + distance(text, from, mark) == text.len() || doubled(
            text,
            from + distance(text, from, mark),
            mark,
        ),
        forall|at: int| from <= at < from + distance(text, from, mark) ==> !doubled(text, at, mark),
    decreases text.len() - from,
{
    if from < text.len() && !doubled(text, from, mark) {
        lemma_distance(text, from + 1, mark);
    }
}

/// A chunk has at least one byte and ends within the source.
pub proof fn lemma_chunk_length(source: Seq<u8>, at: int)
    requires
        0 <= at < source.len(),
    ensures
        chunk_at(source, at) matches Ok((_, length)) ==> 0 < length && at + length <= source.len(),
{
    let rest = source.skip(at);
    if doubled(source, at, OPEN) {
        lemma_distance(rest, 2, CLOSE);
    } else {
        lemma_distance(rest, 0, OPEN);
    }
}

/// The chunks of a source text cover it, each byte once.
pub proof fn lemma_chunks_tile(source: Seq<u8>, at: int)
    requires
        0 <= at <= source.len() <= usize::MAX,
        chunks_from(source, at) is Ok,
    ensures
        tiles(source, chunks_from(source, at)->Ok_0, at),
    decreases source.len() - at,
{
    let chunks = chunks_from(source, at)->Ok_0;
    if at < source.len() {
        lemma_chunk_length(source, at);
        let (chunk, length) = chunk_at(source, at)->Ok_0;
        let others = chunks_from(source, at + length)->Ok_0;
        lemma_chunks_tile(source, at + length);
        let rest = source.skip(at);
        if doubled(source, at, OPEN) {
            lemma_distance(rest, 2, CLOSE);
        } else {
            lemma_distance(rest, 0, OPEN);
        }
        assert(fits(source, chunk));
        assert(start_of(chunk) == at);
        assert(end_of(chunk) == at + length);
        assert(chunks =~= seq![chunk] + others);
        assert forall|index: int| 0 <= index < chunks.len() implies fits(
            source,
            #[trigger] chunks[index],
        ) by {
            if index > 0 {
                assert(chunks[index] == others[index - 1]);
            }
        }
        assert forall|index: int| 0 <= index < chunks.len() implies start_of(chunks[index])
            == #[trigger] seam(chunks, index, at) by {
            if index > 0 {
                assert(chunks[index] == others[index - 1]);
                assert(start_of(others[index - 1]) == seam(others, index - 1, at + length));
                if index > 1 {
                    assert(chunks[index - 1] == others[index - 2]);
                }
            }
        }
        assert(source.len() == seam(others, others.len() as int, at + length));
        if others.len() > 0 {
            assert(chunks[chunks.len() - 1] == others[others.len() - 1]);
        }
    }
}

} // verus!
