pub mod bytes;
pub mod chunk;
pub mod data;
pub mod encoding;
pub mod laws;
pub mod limit;
pub mod parser;
pub mod window;

pub use chunk::{parse_literal, parse_variable, Chunk, Error};
pub use data::Data;

use bytes::append;
use chunk::{
    chunks_from, chunks_of, doubled, fits, holds_pair, lemma_chunk_length, lemma_chunks_tile,
    CLOSE, OPEN,
};
use encoding::{lemma_boundary_after_ascii, lemma_valid_prefix_is_boundary};
use vstd::prelude::*;
use vstd::std_specs::convert::FromSpecImpl;
use vstd::string::StringSliceAdditionalSpecFns;
use vstd::utf8::*;
use window::Window;

verus! {

broadcast use vstd::utf8::encode_utf8_valid_utf8;

/// What a chunk of `source` gives when rendered with `data`: a literal gives
/// its own bytes; a variable gives the value that `data` has for its name, or,
/// where it has none, the name with the braces around it as they stand in
/// the source.
pub open spec fn piece(source: Seq<u8>, chunk: Chunk, data: Map<Seq<char>, Seq<char>>) -> Seq<u8> {
    match chunk {
        Chunk::Literal(window) => window.of(source),
        Chunk::Variable(window) => {
            let name = decode_utf8(window.of(source));
            if data.contains_key(name) {
                encode_utf8(data[name])
            } else {
                seq![OPEN, OPEN] + window.of(source) + seq![CLOSE, CLOSE]
            }
        },
    }
}

/// What `chunks` of `source` give when rendered with `data`: what each chunk
/// gives, in order.
pub open spec fn rendered(
    source: Seq<u8>,
    chunks: Seq<Chunk>,
    data: Map<Seq<char>, Seq<char>>,
) -> Seq<u8>
    decreases chunks.len(),
{
    if chunks.len() == 0 {
        Seq::empty()
    } else {
        rendered(source, chunks.drop_last(), data) + piece(source, chunks.last(), data)
    }
}

/// Rendering one chunk more adds what that chunk gives.
pub proof fn lemma_rendered_step(
    source: Seq<u8>,
    chunks: Seq<Chunk>,
    index: int,
    data: Map<Seq<char>, Seq<char>>,
)
    requires
        0 <= index < chunks.len(),
    ensures
        rendered(source, chunks.take(index + 1), data) == rendered(
            source,
            chunks.take(index),
            data,
        ) + piece(source, chunks[index], data),
{
    let longer = chunks.take(index + 1);
    assert(longer.drop_last() =~= chunks.take(index));
    assert(longer.last() == chunks[index]);
}

/// A template as its source text, in bytes, and the chunks found in it.
pub struct TemplateView {
    pub source: Seq<u8>,
    pub chunks: Seq<Chunk>,
}

/// The chunks of a source text, in order.
struct Chunks {
    chunks: Vec<Chunk>,
}

impl Chunks {
    /// Finds the chunks of a text: at each place a variable where two
    /// opening braces stand, and a literal where they do not.
    fn from_str(s: &str) -> (result: Result<Chunks, Error>)
        ensures
            s.spec_bytes().len() <= usize::MAX,
            match result {
                Ok(found) => chunks_of(s.spec_bytes()) == Ok::<Seq<Chunk>, Error>(found.chunks@),
                Err(error) => chunks_of(s.spec_bytes()) == Err::<Seq<Chunk>, Error>(error),
            },
    {
        let input = s.as_bytes();
        let mut chunks: Vec<Chunk> = Vec::new();
        let mut index: usize = 0;
        while index < input.len()
            invariant
                input@ == s.spec_bytes(),
                index <= input@.len(),
                match chunks_from(input@, index as int) {
                    Ok(others) => chunks_of(input@) == Ok::<Seq<Chunk>, Error>(chunks@ + others),
                    Err(error) => chunks_of(input@) == Err::<Seq<Chunk>, Error>(error),
                },
            decreases input@.len() - index,
        {
            proof {
                lemma_chunk_length(input@, index as int);
            }
            let rest = &input[index..input.len()];
            assert(rest@ == input@.skip(index as int));
            let attempt = if holds_pair(input, index, OPEN) {
                parse_variable(rest, index)
            } else {
                parse_literal(rest, index)
            };
            match attempt {
                Ok((chunk, delta)) => {
                    proof {
                        let others = chunks_from(input@, index + delta);
                        if others is Ok {
                            assert(chunks@.push(chunk) + others->Ok_0 =~= chunks@ + (seq![chunk]
                                + others->Ok_0));
                        }
                    }
                    chunks.push(chunk);
                    index += delta;
                },
                Err(error) => {
                    return Err(error);
                },
            }
        }
        proof {
            assert(chunks@ + Seq::<Chunk>::empty() =~= chunks@);
        }
        Ok(Chunks::from(chunks))
    }
}

impl From<Vec<Chunk>> for Chunks {
    fn from(chunks: Vec<Chunk>) -> (wrapped: Self) {
        Self { chunks }
    }
}

impl FromSpecImpl<Vec<Chunk>> for Chunks {
    closed spec fn obeys_from_spec() -> bool {
        true
    }

    closed spec fn from_spec(chunks: Vec<Chunk>) -> Chunks {
        Chunks { chunks }
    }
}

/// A source text with its chunks: what a template is made of.
struct Compositor {
    input: String,
    chunks: Chunks,
}

impl Compositor {
    /// The chunks are those of the input, which is a text that memory holds.
    #[verifier::type_invariant]
    spec fn compiled(self) -> bool {
        &&& encode_utf8(self.input@).len() <= usize::MAX
        &&& chunks_of(encode_utf8(self.input@)) == Ok::<Seq<Chunk>, Error>(self.chunks.chunks@)
    }

    /// Takes a copy of the text and finds its chunks.
    fn new(input: &str) -> (result: Result<Self, Error>)
        ensures
            input.spec_bytes().len() <= usize::MAX,
            match result {
                Ok(compositor) => {
                    &&& compositor.input@ == input@
                    &&& chunks_of(input.spec_bytes()) == Ok::<Seq<Chunk>, Error>(
                        compositor.chunks.chunks@,
                    )
                },
                Err(error) => chunks_of(input.spec_bytes()) == Err::<Seq<Chunk>, Error>(error),
            },
    {
        let input = input.to_owned();
        let chunks = Chunks::from_str(input.as_str())?;
        Ok(Self { input, chunks })
    }

    /// Writes what the chunks give with `data`, one after the other.
    fn compose(&self, writer: &mut Vec<u8>, data: &Data) -> (result: Result<(), std::io::Error>)
        ensures
            result is Ok,
            final(writer)@ == old(writer)@ + rendered(
                encode_utf8(self.input@),
                self.chunks.chunks@,
                data@,
            ),
    {
        proof {
            use_type_invariant(self);
        }
        let text = self.input.as_str();
        let source = text.as_bytes();
        let ghost before = writer@;
        let ghost chunks = self.chunks.chunks@;
        proof {
            lemma_chunks_tile(source@, 0);
            assert(before + Seq::<u8>::empty() =~= before);
        }
        let mut index: usize = 0;
        while index < self.chunks.chunks.len()
            invariant
                source@ == text.spec_bytes(),
                source@.len() <= usize::MAX,
                chunks == self.chunks.chunks@,
                forall|at: int| 0 <= at < chunks.len() ==> fits(source@, #[trigger] chunks[at]),
                index <= chunks.len(),
                writer@ == before + rendered(source@, chunks.take(index as int), data@),
            decreases chunks.len() - index,
        {
            let chunk = self.chunks.chunks[index];
            write_chunk(writer, text, chunk, data);
            proof {
                lemma_rendered_step(source@, chunks, index as int, data@);
                let earlier = rendered(source@, chunks.take(index as int), data@);
                let latest = piece(source@, chunk, data@);
                assert(before + (earlier + latest) =~= (before + earlier) + latest);
            }
            index += 1;
        }
        proof {
            assert(chunks.take(index as int) =~= chunks);
        }
        Ok(())
    }
}

/// Writes what a chunk of `text` gives with `data`.
fn write_chunk(writer: &mut Vec<u8>, text: &str, chunk: Chunk, data: &Data)
    requires
        text.spec_bytes().len() <= usize::MAX,
        fits(text.spec_bytes(), chunk),
    ensures
        final(writer)@ == old(writer)@ + piece(text.spec_bytes(), chunk, data@),
{
    let source = text.as_bytes();
    match chunk {
        Chunk::Literal(window) => {
            append(writer, &source[window.range()]);
        },
        Chunk::Variable(window) => {
            let key = name_at(text, window);
            match data.get(key) {
                Some(value) => {
                    append(writer, value.as_str().as_bytes());
                },
                None => {
                    writer.push(OPEN);
                    writer.push(OPEN);
                    append(writer, key.as_bytes());
                    writer.push(CLOSE);
                    writer.push(CLOSE);
                    assert(writer@ =~= old(writer)@ + (seq![OPEN, OPEN] + window.of(source@)
                        + seq![CLOSE, CLOSE]));
                },
            }
        },
    }
}

/// The name of a variable, as a part of the text that holds it.
fn name_at<'a>(text: &'a str, window: Window) -> (name: &'a str)
    requires
        text.spec_bytes().len() <= usize::MAX,
        doubled(text.spec_bytes(), window.offset - 2, OPEN),
        doubled(text.spec_bytes(), window.spec_end(), CLOSE),
    ensures
        name.spec_bytes() == window.of(text.spec_bytes()),
        name@ == decode_utf8(window.of(text.spec_bytes())),
{
    let ghost source = text.spec_bytes();
    proof {
        lemma_boundary_after_ascii(source, window.offset - 1);
        lemma_boundary_after_ascii(source, window.spec_end());
        valid_utf8_split(source, window.offset as int);
    }
    let (head, _) = text.split_at(window.end());
    proof {
        assert(head.spec_bytes().subrange(0, window.offset as int) =~= source.subrange(
            0,
            window.offset as int,
        ));
        lemma_valid_prefix_is_boundary(head.spec_bytes(), window.offset as int);
    }
    let (_, name) = head.split_at(window.offset);
    proof {
        assert(name.spec_bytes() =~= window.of(source));
        encode_utf8_decode_utf8(name@);
    }
    name
}

/// `std::io::Error`, the error of a writer. Nothing is said of what it holds.
#[verifier::external_type_specification]
#[verifier::external_body]
pub struct ExIoError(std::io::Error);

/// A compiled template: a source text and the chunks found in it.
pub struct Template {
    compositor: Compositor,
}

impl View for Template {
    type V = TemplateView;

    closed spec fn view(&self) -> TemplateView {
        TemplateView {
            source: encode_utf8(self.compositor.input@),
            chunks: self.compositor.chunks.chunks@,
        }
    }
}

impl Template {
    /// Writes the template at the end of `writer`, each variable replaced by
    /// the value that `data` has for its name, and left as it stands in the
    /// source where `data` has none. Nothing fails: a missing value is no
    /// error, and neither the template nor the data change.
    pub fn render(&self, writer: &mut Vec<u8>, data: &Data) -> (result: Result<
        (),
        std::io::Error,
    >)
        ensures
            result is Ok,
            final(writer)@ == old(writer)@ + rendered(self@.source, self@.chunks, data@),
            self@.source.len() <= usize::MAX,
            chunks_of(self@.source) == Ok::<Seq<Chunk>, Error>(self@.chunks),
    {
        proof {
            use_type_invariant(&self.compositor);
        }
        self.compositor.compose(writer, data)
    }
}

impl From<Compositor> for Template {
    fn from(compositor: Compositor) -> (template: Self) {
        Self { compositor }
    }
}

impl FromSpecImpl<Compositor> for Template {
    closed spec fn obeys_from_spec() -> bool {
        true
    }

    closed spec fn from_spec(compositor: Compositor) -> Template {
        Template { compositor }
    }
}

/// Compiles a source text into a template: the text is scanned once, from
/// left to right, and the template keeps a copy of it together with the
/// chunks found. The first error met is returned, and no template then.
pub fn compile(input: &str) -> (result: Result<Template, Error>)
    ensures
        match result {
            Ok(template) => {
                &&& template@.source == input.spec_bytes()
                &&& template@.source.len() <= usize::MAX
                &&& chunks_of(input.spec_bytes()) == Ok::<Seq<Chunk>, Error>(template@.chunks)
            },
            Err(error) => chunks_of(input.spec_bytes()) == Err::<Seq<Chunk>, Error>(error),
        },
{
    let compositor = Compositor::new(input)?;
    Ok(Template::from(compositor))
}

} // verus!
