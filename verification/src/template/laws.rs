use super::chunk::{
    chunk_at, chunks_from, chunks_of, distance, doubled, end_of, fits, lemma_chunk_length,
    lemma_chunks_tile, seam, start_of, tiles, Chunk, Error, CLOSE, OPEN,
};
use super::{lemma_rendered_step, piece, rendered};
use vstd::prelude::*;
use vstd::utf8::*;

verus! {

/// The lengths of the windows of `chunks`, added up.
pub open spec fn span_total(chunks: Seq<Chunk>) -> nat
    decreases chunks.len(),
{
    if chunks.len() == 0 {
        0
    } else {
        span_total(chunks.drop_last()) + match chunks.last() {
            Chunk::Literal(window) => window.length as nat,
            Chunk::Variable(window) => window.length as nat,
        }
    }
}

/// The number of variables among `chunks`.
pub open spec fn variables(chunks: Seq<Chunk>) -> nat
    decreases chunks.len(),
{
    if chunks.len() == 0 {
        0
    } else {
        variables(chunks.drop_last()) + match chunks.last() {
            Chunk::Literal(_) => 0nat,
            Chunk::Variable(_) => 1nat,
        }
    }
}

/// A source text compiles unless a variable in it is left open: no other
/// error comes of it.
pub proof fn lemma_only_an_open_variable_fails(source: Seq<u8>, at: int)
    requires
        0 <= at <= source.len(),
    ensures
        chunks_from(source, at) matches Err(error) ==> error == Error::UnmatchedVariable,
    decreases source.len() - at,
{
    if at < source.len() {
        lemma_chunk_length(source, at);
        if !doubled(source, at, OPEN) {
            assert(source.skip(at)[0] == source[at]);
            if at + 1 < source.len() {
                assert(source.skip(at)[1] == source[at + 1]);
            }
            assert(!doubled(source.skip(at), 0, OPEN));
            assert(distance(source.skip(at), 0, OPEN) > 0);
        }
        if chunk_at(source, at) is Ok {
            lemma_only_an_open_variable_fails(source, at + chunk_at(source, at)->Ok_0.1);
        }
    }
}

/// The chunks of a source text are contiguous, do not overlap, and cover the
/// text: the windows' lengths and four bytes of braces for each variable add
/// up to the length of the source.
pub proof fn lemma_spans_cover_source(source: Seq<u8>, chunks: Seq<Chunk>)
    requires
        source.len() <= usize::MAX,
        chunks_of(source) == Ok::<Seq<Chunk>, Error>(chunks),
    ensures
        tiles(source, chunks, 0),
        span_total(chunks) + 4 * variables(chunks) == source.len(),
{
    lemma_chunks_tile(source, 0);
    lemma_span_lengths(source, chunks, chunks.len() as int);
    assert(chunks.take(chunks.len() as int) =~= chunks);
}

/// Where no chunk of a source text is a variable, the windows' lengths add up
/// to the length of the source.
pub proof fn lemma_literal_spans_cover_source(source: Seq<u8>, chunks: Seq<Chunk>)
    requires
        source.len() <= usize::MAX,
        chunks_of(source) == Ok::<Seq<Chunk>, Error>(chunks),
        forall|index: int| 0 <= index < chunks.len() ==> chunks[index] is Literal,
    ensures
        span_total(chunks) == source.len(),
{
    lemma_spans_cover_source(source, chunks);
    lemma_no_variables(chunks);
}

proof fn lemma_no_variables(chunks: Seq<Chunk>)
    requires
        forall|index: int| 0 <= index < chunks.len() ==> chunks[index] is Literal,
    ensures
        variables(chunks) == 0,
    decreases chunks.len(),
{
    if chunks.len() > 0 {
        lemma_no_variables(chunks.drop_last());
    }
}

proof fn lemma_span_lengths(source: Seq<u8>, chunks: Seq<Chunk>, count: int)
    requires
        tiles(source, chunks, 0),
        0 <= count <= chunks.len(),
    ensures
        span_total(chunks.take(count)) + 4 * variables(chunks.take(count)) == seam(
            chunks,
            count,
            0,
        ),
    decreases count,
{
    if count > 0 {
        lemma_span_lengths(source, chunks, count - 1);
        assert(chunks.take(count).drop_last() =~= chunks.take(count - 1));
        assert(chunks.take(count).last() == chunks[count - 1]);
        assert(fits(source, chunks[count - 1]));
        assert(start_of(chunks[count - 1]) == seam(chunks, count - 1, 0));
    }
}

/// Rendered with data that has a value for none of its variables, a template
/// gives its source text back.
pub proof fn lemma_unresolved_render_is_source(
    source: Seq<u8>,
    chunks: Seq<Chunk>,
    data: Map<Seq<char>, Seq<char>>,
)
    requires
        source.len() <= usize::MAX,
        chunks_of(source) == Ok::<Seq<Chunk>, Error>(chunks),
        forall|index: int|
            0 <= index < chunks.len() ==> (#[trigger] chunks[index] matches Chunk::Variable(window)
                ==> !data.contains_key(decode_utf8(window.of(source)))),
    ensures
        rendered(source, chunks, data) == source,
{
    lemma_chunks_tile(source, 0);
    lemma_unresolved_prefix(source, chunks, data, chunks.len() as int);
    assert(chunks.take(chunks.len() as int) =~= chunks);
    assert(source.subrange(0, source.len() as int) =~= source);
}

/// A chunk whose variable, if it is one, has no value gives the bytes of the
/// source that it covers.
proof fn lemma_unresolved_piece(source: Seq<u8>, chunk: Chunk, data: Map<Seq<char>, Seq<char>>)
    requires
        fits(source, chunk),
        chunk matches Chunk::Variable(window) ==> !data.contains_key(
            decode_utf8(window.of(source)),
        ),
    ensures
        0 <= start_of(chunk) <= end_of(chunk) <= source.len(),
        piece(source, chunk, data) == source.subrange(start_of(chunk), end_of(chunk)),
{
    match chunk {
        Chunk::Literal(window) => {},
        Chunk::Variable(window) => {
            let name = window.of(source);
            let whole = source.subrange(start_of(chunk), end_of(chunk));
            let given = seq![OPEN, OPEN] + name + seq![CLOSE, CLOSE];
            assert(given.len() == whole.len());
            assert forall|index: int| 0 <= index < whole.len() implies given[index]
                == whole[index] by {
                if index < 2 {
                } else if index < 2 + name.len() {
                    assert(given[index] == name[index - 2]);
                } else {
                }
            }
            assert(given =~= whole);
        },
    }
}

proof fn lemma_unresolved_prefix(
    source: Seq<u8>,
    chunks: Seq<Chunk>,
    data: Map<Seq<char>, Seq<char>>,
    count: int,
)
    requires
        tiles(source, chunks, 0),
        0 <= count <= chunks.len(),
        forall|index: int|
            0 <= index < chunks.len() ==> (#[trigger] chunks[index] matches Chunk::Variable(window)
                ==> !data.contains_key(decode_utf8(window.of(source)))),
    ensures
        0 <= seam(chunks, count, 0) <= source.len(),
        rendered(source, chunks.take(count), data) == source.subrange(0, seam(chunks, count, 0)),
    decreases count,
{
    if count == 0 {
        assert(rendered(source, chunks.take(0), data) =~= source.subrange(0, 0));
    } else {
        lemma_unresolved_prefix(source, chunks, data, count - 1);
        lemma_rendered_step(source, chunks, count - 1, data);
        let chunk = chunks[count - 1];
        let start = start_of(chunk);
        assert(fits(source, chunk));
        assert(start == seam(chunks, count - 1, 0));
        lemma_unresolved_piece(source, chunk, data);
        let earlier = rendered(source, chunks.take(count - 1), data);
        let latest = piece(source, chunk, data);
        assert(earlier == source.subrange(0, start));
        assert(latest == source.subrange(start, end_of(chunk)));
        assert(source.subrange(0, start) + source.subrange(start, end_of(chunk))
            =~= source.subrange(0, end_of(chunk)));
    }
}

/// A text in which no two opening braces follow each other is a template, and
/// rendered, with whatever data, it comes back as it is.
pub proof fn lemma_plain_text_round_trip(source: Seq<u8>, data: Map<Seq<char>, Seq<char>>)
    requires
        source.len() <= usize::MAX,
        forall|at: int| !doubled(source, at, OPEN),
    ensures
        chunks_of(source) is Ok,
        rendered(source, chunks_of(source)->Ok_0, data) == source,
{
    lemma_plain_text_chunks(source, 0);
    let chunks = chunks_of(source)->Ok_0;
    lemma_unresolved_render_is_source(source, chunks, data);
}

proof fn lemma_plain_text_chunks(source: Seq<u8>, at: int)
    requires
        0 <= at <= source.len(),
        forall|at: int| !doubled(source, at, OPEN),
    ensures
        chunks_from(source, at) matches Ok(chunks) && forall|index: int|
            0 <= index < chunks.len() ==> chunks[index] is Literal,
    decreases source.len() - at,
{
    if at < source.len() {
        lemma_chunk_length(source, at);
        lemma_only_an_open_variable_fails(source, at);
        let (chunk, length) = chunk_at(source, at)->Ok_0;
        lemma_plain_text_chunks(source, at + length);
    }
}

/// What a rendering adds to its writer depends on the template and the data
/// alone: two renderings of one template with the same data add the same.
pub proof fn lemma_render_repeats(
    source: Seq<u8>,
    chunks: Seq<Chunk>,
    data: Map<Seq<char>, Seq<char>>,
    before: (Seq<u8>, Seq<u8>),
    after: (Seq<u8>, Seq<u8>),
)
    requires
        after.0 == before.0 + rendered(source, chunks, data),
        after.1 == before.1 + rendered(source, chunks, data),
    ensures
        after.0.skip(before.0.len() as int) == after.1.skip(before.1.len() as int),
{
    assert(after.0.skip(before.0.len() as int) =~= rendered(source, chunks, data));
    assert(after.1.skip(before.1.len() as int) =~= rendered(source, chunks, data));
}

} // verus!
