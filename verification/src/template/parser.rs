use super::bytes::{matches_at, occurs_at};
use super::encoding::{
    lemma_boundary_after_first, lemma_boundary_at_start_of_text, lemma_valid_prefix_is_boundary,
    width_of,
};
pub use super::limit::Limit;
pub use super::window::Window;
use std::marker::PhantomData;
use vstd::prelude::*;
use vstd::string::StringSliceAdditionalSpecFns;
use vstd::utf8::*;

verus! {

broadcast use {vstd::string::group_string_axioms, vstd::utf8::encode_utf8_valid_utf8};

/// Why a parser did not accept its input.
#[derive(Debug, PartialEq)]
pub enum Error {
    ExpectedLiteral(String),
    UnexpectedCharacter(char),
    UnexpectedEOF,
    ExpectedOneOfToParse,
    ExpectedToAvoid(String),
}

/// A parser of `T`: applied at a position of a source text to what is left of
/// it, it gives a value and the rest of the input, or an error. The rest is
/// always an end of the input: a parser reads from left to right and changes
/// nothing.
pub trait Parser<T> {
    /// Whether the parser may be applied. It holds of every parser that
    /// carries no function; one that does asks that the function may be called.
    spec fn ready(&self) -> bool;

    /// Whether `result` is an outcome of applying the parser at `offset` to
    /// `input`.
    spec fn yields(&self, offset: usize, input: &str, result: Result<(T, &str), Error>) -> bool;

    /// Applies the parser to a whole text, from its start.
    fn parse<'a>(&self, input: &'a str) -> (result: Result<(T, &'a str), Error>)
        requires
            self.ready(),
        ensures
            self.yields(0, input, result),
            result matches Ok(found) ==> found.1.spec_bytes().is_suffix_of(input.spec_bytes()),
    {
        // A text that memory holds is no longer than a `usize` can say.
        let size = input.as_bytes().len();
        assert(size == input.spec_bytes().len());
        self._parse(0, input)
    }

    /// Applies the parser to `input`, which is what is left of a source text
    /// from `offset` on. Windows in the result count from the start of the
    /// source text.
    fn _parse<'a>(&self, offset: usize, input: &'a str) -> (result: Result<(T, &'a str), Error>)
        requires
            self.ready(),
            offset + input.spec_bytes().len() <= usize::MAX,
        ensures
            self.yields(offset, input, result),
            result matches Ok(found) ==> found.1.spec_bytes().is_suffix_of(input.spec_bytes()),
    ;
}

/// Matches one text exactly, byte for byte: the input has to begin with it.
/// The window spans the text, and the rest is what follows it.
pub struct Literal<'p>(pub &'p str);

impl<'p> Parser<Window> for Literal<'p> {
    open spec fn ready(&self) -> bool {
        true
    }

    open spec fn yields(
        &self,
        offset: usize,
        input: &str,
        result: Result<(Window, &str), Error>,
    ) -> bool {
        let text = self.0.spec_bytes();
        match result {
            Ok((window, rest)) => {
                &&& text.is_prefix_of(input.spec_bytes())
                &&& window == (Window { offset, length: text.len() as usize })
                &&& rest.spec_bytes() == input.spec_bytes().skip(text.len() as int)
            },
            Err(Error::ExpectedLiteral(expected)) => {
                &&& !text.is_prefix_of(input.spec_bytes())
                &&& expected@ == self.0@
            },
            Err(_) => false,
        }
    }

    fn _parse<'a>(&self, offset: usize, input: &'a str) -> (result: Result<
        (Window, &'a str),
        Error,
    >) {
        if matches_at(input.as_bytes(), 0, self.0.as_bytes()) {
            let length = self.0.len();
            proof {
                let whole = input.spec_bytes();
                assert(whole.skip(0) =~= whole);
                lemma_valid_prefix_is_boundary(whole, length as int);
            }
            let (_, remainder) = input.split_at(length);
            proof {
                let whole = input.spec_bytes();
                assert(whole.skip(length as int) =~= whole.subrange(
                    length as int,
                    whole.len() as int,
                ));
            }
            Ok((Window::new(offset, length), remainder))
        } else {
            proof {
                assert(input.spec_bytes().skip(0) =~= input.spec_bytes());
            }
            Err(Error::ExpectedLiteral(self.0.to_owned()))
        }
    }
}

/// The parser that matches `match_exactly`.
pub fn literal(match_exactly: &str) -> (parser: Literal<'_>)
    ensures
        parser.0 == match_exactly,
{
    Literal(match_exactly)
}

/// Matches one character that a predicate accepts. The window has the length
/// one, and the rest is what follows the character. An empty input is an
/// unexpected end, and a character that the predicate rejects is unexpected.
pub struct Any<F> where F: Fn(char) -> bool + Sized {
    pub predicate: F,
}

impl<F> Parser<Window> for Any<F> where F: Fn(char) -> bool + Sized {
    open spec fn ready(&self) -> bool {
        forall|character: char| call_requires(self.predicate, (character,))
    }

    open spec fn yields(
        &self,
        offset: usize,
        input: &str,
        result: Result<(Window, &str), Error>,
    ) -> bool {
        match result {
            Ok((window, rest)) => {
                &&& input@.len() > 0
                &&& call_ensures(self.predicate, (input@[0],), true)
                &&& window == (Window { offset, length: 1 })
                &&& rest@ == input@.drop_first()
            },
            Err(Error::UnexpectedCharacter(character)) => {
                &&& input@.len() > 0
                &&& character == input@[0]
                &&& call_ensures(self.predicate, (character,), false)
            },
            Err(Error::UnexpectedEOF) => input@.len() == 0,
            Err(_) => false,
        }
    }

    fn _parse<'a>(&self, offset: usize, input: &'a str) -> (result: Result<
        (Window, &'a str),
        Error,
    >) {
        let mut characters = input.chars();
        if let Some(character) = characters.next() {
            if (self.predicate)(character) {
                let width = width_of(character);
                proof {
                    lemma_boundary_after_first(input@);
                }
                let (_, rest) = input.split_at(width);
                proof {
                    assert(rest.spec_bytes() == encode_utf8(input@.drop_first()));
                    encode_utf8_decode_utf8(rest@);
                    encode_utf8_decode_utf8(input@.drop_first());
                    let whole = input.spec_bytes();
                    assert(whole.subrange(width as int, whole.len() as int) =~= whole.skip(
                        width as int,
                    ));
                }
                Ok((Window::new(offset, 1), rest))
            } else {
                Err(Error::UnexpectedCharacter(character))
            }
        } else {
            Err(Error::UnexpectedEOF)
        }
    }
}

/// The parser that matches one character that `predicate` accepts.
pub fn any<F>(predicate: F) -> (parser: Any<F>) where F: Fn(char) -> bool + Sized
    ensures
        parser.predicate == predicate,
        parser.ready() <==> forall|character: char| call_requires(predicate, (character,)),
{
    let parser = Any { predicate };
    proof {
        if parser.ready() {
            assert forall|character: char| call_requires(predicate, (character,)) by {
                assert(call_requires(parser.predicate, (character,)));
            }
        }
    }
    parser
}

/// Matches what stands before the first occurrence of a marker. The window
/// spans what stands before it, and the rest begins with the marker. It fails
/// where the marker stands at the very start, so that nothing stands before
/// it, and where the marker does not occur.
pub struct Avoid<'p>(pub &'p str);

impl<'p> Parser<Window> for Avoid<'p> {
    open spec fn ready(&self) -> bool {
        true
    }

    open spec fn yields(
        &self,
        offset: usize,
        input: &str,
        result: Result<(Window, &str), Error>,
    ) -> bool {
        let marker = self.0.spec_bytes();
        let whole = input.spec_bytes();
        match result {
            Ok((window, rest)) => {
                &&& window.offset == offset
                &&& 0 < window.length
                &&& occurs_at(whole, window.length as int, marker)
                &&& forall|at: int| 0 <= at < window.length ==> !occurs_at(whole, at, marker)
                &&& rest.spec_bytes() == whole.skip(window.length as int)
            },
            Err(Error::ExpectedToAvoid(avoided)) => {
                &&& avoided@ == self.0@
                &&& occurs_at(whole, 0, marker) || forall|at: int| !occurs_at(whole, at, marker)
            },
            Err(_) => false,
        }
    }

    fn _parse<'a>(&self, offset: usize, input: &'a str) -> (result: Result<
        (Window, &'a str),
        Error,
    >) {
        let whole = input.as_bytes();
        let marker = self.0.as_bytes();
        let mut local_offset: usize = 0;
        while local_offset < whole.len() && !matches_at(whole, local_offset, marker)
            invariant
                local_offset <= whole@.len(),
                forall|at: int| 0 <= at < local_offset ==> !occurs_at(whole@, at, marker@),
            decreases whole@.len() - local_offset,
        {
            local_offset += 1;
        }
        if local_offset != 0 && local_offset < whole.len() {
            proof {
                assert(whole@.skip(local_offset as int)[0] == whole@[local_offset as int]);
                assert(marker@ =~= whole@.skip(local_offset as int).subrange(
                    0,
                    marker@.len() as int,
                ));
                if marker@.len() == 0 {
                    assert(marker@ =~= whole@.skip(0).subrange(0, 0));
                    assert(occurs_at(whole@, 0, marker@));
                }
                lemma_boundary_at_start_of_text(whole@, local_offset as int, marker@);
            }
            let (_, rest) = input.split_at(local_offset);
            proof {
                assert(whole@.subrange(local_offset as int, whole@.len() as int) =~= whole@.skip(
                    local_offset as int,
                ));
            }
            Ok((Window::new(offset, local_offset), rest))
        } else {
            proof {
                if marker@.len() == 0 {
                    assert(marker@ =~= whole@.skip(0).subrange(0, 0));
                    assert(occurs_at(whole@, 0, marker@));
                } else if !occurs_at(whole@, 0, marker@) {
                    assert forall|at: int| !occurs_at(whole@, at, marker@) by {
                        if at == whole@.len() {
                            assert(whole@.skip(at).len() == 0);
                        }
                    }
                }
            }
            Err(Error::ExpectedToAvoid(self.0.to_owned()))
        }
    }
}

/// The parser that matches what stands before `match_exactly`.
pub fn avoid(match_exactly: &str) -> (parser: Avoid<'_>)
    ensures
        parser.0 == match_exactly,
{
    Avoid(match_exactly)
}

/// Applies a parser and transforms what it produced. The rest is that of the
/// parser, and so is the error where it fails.
#[verifier::reject_recursive_types(I)]
#[verifier::reject_recursive_types(O)]
pub struct Mapped<I, O, P, F> where P: Parser<I> + Sized, F: Fn(I) -> O + Sized {
    pub parser: P,
    pub map: F,
    pub marker: PhantomData<I>,
}

impl<I, O, P, F> Parser<O> for Mapped<I, O, P, F> where P: Parser<I> + Sized, F: Fn(I) -> O + Sized {
    open spec fn ready(&self) -> bool {
        &&& self.parser.ready()
        &&& forall|offset: usize, input: &str, value: I, rest: &str|
            offset + input.spec_bytes().len() <= usize::MAX && #[trigger] self.parser.yields(
                offset,
                input,
                Ok((value, rest)),
            ) ==> call_requires(self.map, (value,))
    }

    open spec fn yields(&self, offset: usize, input: &str, result: Result<(O, &str), Error>) -> bool {
        match result {
            Ok((value, rest)) => exists|found: I|
                {
                    &&& #[trigger] self.parser.yields(offset, input, Ok((found, rest)))
                    &&& call_ensures(self.map, (found,), value)
                },
            Err(error) => self.parser.yields(offset, input, Err(error)),
        }
    }

    fn _parse<'a>(&self, offset: usize, input: &'a str) -> (result: Result<(O, &'a str), Error>) {
        match self.parser._parse(offset, input) {
            Ok((value, rest)) => {
                let ghost found = value;
                let mapped = (self.map)(value);
                assert(self.parser.yields(offset, input, Ok((found, rest))));
                let result = Ok((mapped, rest));
                assert(result matches Ok((value, left)) && value == mapped && left == rest);
                result
            },
            Err(error) => Err(error),
        }
    }
}

/// The parser that applies `parser` and then `transform` to what it produced.
pub fn map<I, O, P, F>(parser: P, transform: F) -> (mapped: Mapped<I, O, P, F>) where
    P: Parser<I> + Sized,
    F: Fn(I) -> O + Sized,

    ensures
        mapped.parser == parser,
        mapped.map == transform,
        mapped.ready() <==> {
            &&& parser.ready()
            &&& forall|offset: usize, input: &str, value: I, rest: &str|
                offset + input.spec_bytes().len() <= usize::MAX && #[trigger] parser.yields(
                    offset,
                    input,
                    Ok((value, rest)),
                ) ==> call_requires(transform, (value,))
        },
{
    Mapped { parser, map: transform, marker: PhantomData }
}

/// Whether applying `parser` at `offset` to `input` may give an error.
pub open spec fn fails<T, P: Parser<T>>(parser: &P, offset: usize, input: &str) -> bool {
    exists|error: Error| #[trigger] parser.yields(offset, input, Err(error))
}

/// Tries parsers in turn, all at one position, and takes the first that
/// accepts the input. Where none does, it fails, and says no more than that.
#[verifier::reject_recursive_types(T)]
pub struct OneOf<T, P> where P: Parser<T> + Sized {
    pub options: Vec<P>,
    pub marker: PhantomData<T>,
}

impl<T, P> Parser<T> for OneOf<T, P> where P: Parser<T> + Sized {
    open spec fn ready(&self) -> bool {
        forall|index: int| 0 <= index < self.options@.len() ==> (#[trigger] self.options@[index]).ready()
    }

    open spec fn yields(&self, offset: usize, input: &str, result: Result<(T, &str), Error>) -> bool {
        match result {
            Ok(found) => exists|index: int|
                {
                    &&& 0 <= index < self.options@.len()
                    &&& (#[trigger] self.options@[index]).yields(offset, input, Ok(found))
                    &&& forall|earlier: int|
                        0 <= earlier < index ==> fails(
                            &#[trigger] self.options@[earlier],
                            offset,
                            input,
                        )
                },
            Err(Error::ExpectedOneOfToParse) => forall|index: int|
                0 <= index < self.options@.len() ==> fails(
                    &#[trigger] self.options@[index],
                    offset,
                    input,
                ),
            Err(_) => false,
        }
    }

    fn _parse<'a>(&self, offset: usize, input: &'a str) -> (result: Result<(T, &'a str), Error>) {
        let mut index: usize = 0;
        while index < self.options.len()
            invariant
                self.ready(),
                offset + input.spec_bytes().len() <= usize::MAX,
                index <= self.options@.len(),
                forall|earlier: int|
                    0 <= earlier < index ==> fails(
                        &#[trigger] self.options@[earlier],
                        offset,
                        input,
                    ),
            decreases self.options@.len() - index,
        {
            match self.options[index]._parse(offset, input) {
                Ok(found) => {
                    return Ok(found);
                },
                Err(error) => {
                    assert(self.options@[index as int].yields(offset, input, Err(error)));
                },
            }
            index += 1;
        }
        Err(Error::ExpectedOneOfToParse)
    }
}

/// The parser that tries `options` in their order.
pub fn one_of<T, P>(options: Vec<P>) -> (choice: OneOf<T, P>) where P: Parser<T> + Sized
    ensures
        choice.options == options,
        choice.ready() <==> forall|index: int|
            0 <= index < options@.len() ==> (#[trigger] options@[index]).ready(),
{
    let choice = OneOf { options, marker: PhantomData };
    proof {
        if choice.ready() {
            assert forall|index: int| 0 <= index < options@.len() implies (
            #[trigger] options@[index]).ready() by {
                assert(choice.options@[index].ready());
            }
        }
    }
    choice
}

/// The most repetitions that a bound admits. No count exceeds what a `u64`
/// holds, so that is what `Infinity` admits.
pub open spec fn ceiling(limit: Limit) -> int {
    match limit {
        Limit::At(count) => count as int,
        Limit::Infinity => u64::MAX as int,
    }
}

/// What is left of `input` before the application numbered `index`, where the
/// applications before it gave `steps`.
pub open spec fn left_before<'a, T>(input: &'a str, steps: Seq<(T, &'a str)>, index: int) -> &'a str {
    if index <= 0 {
        input
    } else {
        steps[index - 1].1
    }
}

/// The position in the source text at which `rest` begins, where `input`
/// begins at `offset` and ends with `rest`.
pub open spec fn position_of(offset: usize, input: &str, rest: &str) -> usize {
    (offset + input.spec_bytes().len() - rest.spec_bytes().len()) as usize
}

/// Whether `steps` is a run of `parser`: successive applications that all
/// succeeded, the first at `offset` on `input`, each of the others where the
/// one before it stopped.
pub open spec fn runs<T, P: Parser<T>>(
    parser: &P,
    offset: usize,
    input: &str,
    steps: Seq<(T, &str)>,
) -> bool {
    forall|index: int|
        0 <= index < steps.len() ==> parser.yields(
            position_of(offset, input, left_before(input, steps, index)),
            left_before(input, steps, index),
            Ok(#[trigger] steps[index]),
        )
}

/// Applies a parser repeatedly, each time to what the time before left: as
/// often as the lower limit says, where a failure is a failure of the whole,
/// and then on while the count of repetitions is less than the upper limit
/// and the parser accepts. It gives what the repetitions produced, in order,
/// and what the last of them left.
#[verifier::reject_recursive_types(T)]
pub struct Between<T, P> where P: Parser<T> + Sized {
    pub lower_limit: u64,
    pub upper_limit: Limit,
    pub parser: P,
    pub marker: PhantomData<T>,
}

impl<T, P> Parser<Vec<T>> for Between<T, P> where P: Parser<T> + Sized {
    open spec fn ready(&self) -> bool {
        self.parser.ready()
    }

    open spec fn yields(
        &self,
        offset: usize,
        input: &str,
        result: Result<(Vec<T>, &str), Error>,
    ) -> bool {
        match result {
            Ok((values, rest)) => exists|steps: Seq<(T, &str)>|
                {
                    &&& #[trigger] runs(&self.parser, offset, input, steps)
                    &&& values@ == steps.map_values(|step: (T, &str)| step.0)
                    &&& rest == left_before(input, steps, steps.len() as int)
                    &&& self.lower_limit <= steps.len()
                    &&& steps.len() > self.lower_limit ==> steps.len() <= ceiling(self.upper_limit)
                    &&& steps.len() >= ceiling(self.upper_limit) || fails(
                        &self.parser,
                        position_of(offset, input, rest),
                        rest,
                    )
                },
            Err(error) => exists|steps: Seq<(T, &str)>|
                {
                    &&& #[trigger] runs(&self.parser, offset, input, steps)
                    &&& steps.len() < self.lower_limit
                    &&& self.parser.yields(
                        position_of(offset, input, left_before(input, steps, steps.len() as int)),
                        left_before(input, steps, steps.len() as int),
                        Err(error),
                    )
                },
        }
    }

    fn _parse<'a>(&self, offset: usize, input: &'a str) -> (result: Result<
        (Vec<T>, &'a str),
        Error,
    >) {
        let size = input.as_bytes().len();
        let mut result: Vec<T> = Vec::new();
        let mut current_offset = offset;
        let mut source = input;
        let mut count: u64 = 0;
        let ghost mut steps: Seq<(T, &str)> = Seq::empty();
        proof {
            assert(input.spec_bytes() =~= input.spec_bytes().subrange(0, size as int));
        }
        while count < self.lower_limit
            invariant
                self.parser.ready(),
                size == input.spec_bytes().len(),
                offset + size <= usize::MAX,
                count <= self.lower_limit,
                steps.len() == count,
                runs(&self.parser, offset, input, steps),
                result@ == steps.map_values(|step: (T, &str)| step.0),
                source == left_before(input, steps, count as int),
                source.spec_bytes().is_suffix_of(input.spec_bytes()),
                current_offset == position_of(offset, input, source),
            decreases self.lower_limit - count,
        {
            match self.parser._parse(current_offset, source) {
                Ok((value, rest)) => {
                    proof {
                        lemma_suffix_of_suffix(
                            rest.spec_bytes(),
                            source.spec_bytes(),
                            input.spec_bytes(),
                        );
                        lemma_run_continues(&self.parser, offset, input, steps, (value, rest));
                        steps = steps.push((value, rest));
                    }
                    current_offset = offset + (size - rest.as_bytes().len());
                    result.push(value);
                    source = rest;
                },
                Err(error) => {
                    return Err(error);
                },
            }
            count += 1;
        }
        while count < u64::MAX && self.upper_limit.exceeds(count)
            invariant
                self.parser.ready(),
                size == input.spec_bytes().len(),
                offset + size <= usize::MAX,
                self.lower_limit <= count,
                count > self.lower_limit ==> count <= ceiling(self.upper_limit),
                steps.len() == count,
                runs(&self.parser, offset, input, steps),
                result@ == steps.map_values(|step: (T, &str)| step.0),
                source == left_before(input, steps, count as int),
                source.spec_bytes().is_suffix_of(input.spec_bytes()),
                current_offset == position_of(offset, input, source),
            decreases u64::MAX - count,
        {
            match self.parser._parse(current_offset, source) {
                Ok((value, rest)) => {
                    proof {
                        lemma_suffix_of_suffix(
                            rest.spec_bytes(),
                            source.spec_bytes(),
                            input.spec_bytes(),
                        );
                        lemma_run_continues(&self.parser, offset, input, steps, (value, rest));
                        steps = steps.push((value, rest));
                    }
                    current_offset = offset + (size - rest.as_bytes().len());
                    result.push(value);
                    source = rest;
                },
                Err(error) => {
                    assert(self.parser.yields(current_offset, source, Err(error)));
                    let found = Ok((result, source));
                    assert(found matches Ok((values, left)) && values == result && left == source);
                    return found;
                },
            }
            count += 1;
        }
        let found = Ok((result, source));
        assert(found matches Ok((values, left)) && values == result && left == source);
        found
    }
}

/// Being the end of the end of a text is being an end of that text.
proof fn lemma_suffix_of_suffix(inner: Seq<u8>, middle: Seq<u8>, outer: Seq<u8>)
    requires
        inner.is_suffix_of(middle),
        middle.is_suffix_of(outer),
    ensures
        inner.is_suffix_of(outer),
{
    let skipped = outer.len() - middle.len();
    assert(inner =~= outer.subrange(outer.len() - inner.len(), outer.len() as int)) by {
        assert forall|index: int| 0 <= index < inner.len() implies inner[index] == outer[outer.len()
            - inner.len() + index] by {
            assert(inner[index] == middle[middle.len() - inner.len() + index]);
            assert(middle[middle.len() - inner.len() + index] == outer[skipped + middle.len()
                - inner.len() + index]);
        }
    }
}

/// A run followed by one more successful application, made where the run
/// stopped, is a run.
proof fn lemma_run_continues<T, P: Parser<T>>(
    parser: &P,
    offset: usize,
    input: &str,
    steps: Seq<(T, &str)>,
    next: (T, &str),
)
    requires
        runs(parser, offset, input, steps),
        parser.yields(
            position_of(offset, input, left_before(input, steps, steps.len() as int)),
            left_before(input, steps, steps.len() as int),
            Ok(next),
        ),
    ensures
        runs(parser, offset, input, steps.push(next)),
        steps.push(next).map_values(|step: (T, &str)| step.0) == steps.map_values(
            |step: (T, &str)| step.0,
        ).push(next.0),
{
    let longer = steps.push(next);
    assert forall|index: int| 0 <= index < longer.len() implies parser.yields(
        position_of(offset, input, left_before(input, longer, index)),
        left_before(input, longer, index),
        Ok(#[trigger] longer[index]),
    ) by {
        if index < steps.len() {
            assert(longer[index] == steps[index]);
            assert(left_before(input, longer, index) == left_before(input, steps, index));
        }
    }
    assert(longer.map_values(|step: (T, &str)| step.0) =~= steps.map_values(
        |step: (T, &str)| step.0,
    ).push(next.0));
}

impl<T, P> Between<T, P> where P: Parser<T> + Sized {
    /// The parser that repeats `parser` within the two limits.
    pub fn new(lower_limit: u64, upper_limit: Limit, parser: P) -> (repeated: Self)
        ensures
            repeated.lower_limit == lower_limit,
            repeated.upper_limit == upper_limit,
            repeated.parser == parser,
            repeated.ready() <==> parser.ready(),
    {
        Self { lower_limit, upper_limit, parser, marker: PhantomData }
    }
}

/// The parser that repeats `parser` at least `lower_limit` times, and goes on
/// while it has repeated it fewer than `upper_limit` times.
pub fn between<T, P: Parser<T>>(lower_limit: u64, upper_limit: u64, parser: P) -> (repeated: Between<
    T,
    P,
>)
    ensures
        repeated.lower_limit == lower_limit,
        repeated.upper_limit == Limit::At(upper_limit),
        repeated.parser == parser,
        repeated.ready() <==> parser.ready(),
{
    Between::new(lower_limit, Limit::At(upper_limit), parser)
}

/// The parser that repeats `parser` at least `lower_limit` times, and goes on
/// as long as it accepts.
pub fn at_least<T, P: Parser<T>>(lower_limit: u64, parser: P) -> (repeated: Between<T, P>)
    ensures
        repeated.lower_limit == lower_limit,
        repeated.upper_limit == Limit::Infinity,
        repeated.parser == parser,
        repeated.ready() <==> parser.ready(),
{
    Between::new(lower_limit, Limit::Infinity, parser)
}

/// The parser that repeats `parser` as long as it accepts.
pub fn many<T, P: Parser<T>>(parser: P) -> (repeated: Between<T, P>)
    ensures
        repeated.lower_limit == 0,
        repeated.upper_limit == Limit::Infinity,
        repeated.parser == parser,
        repeated.ready() <==> parser.ready(),
{
    at_least(0, parser)
}

} // verus!
