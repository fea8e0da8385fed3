use crate::figure::{Figure, Point};
use crate::template::bytes::append;
use crate::template::data::{insert, lemma_empty_map};
use crate::template::{rendered, Data, Template};
use std::collections::HashMap;
use vstd::prelude::*;
use vstd::std_specs::convert::FromSpecImpl;
use vstd::string::StringSliceAdditionalSpecFns;
use vstd::utf8::*;

verus! {

/// `std::string::FromUtf8Error`, the error of bytes that are not UTF-8.
/// Nothing is said of what it holds.
#[verifier::external_type_specification]
#[verifier::external_body]
pub struct ExFromUtf8Error(std::string::FromUtf8Error);

/// Why a value could not be written.
#[derive(Debug)]
pub enum Error {
    IO(std::io::Error),
    Encoding(std::string::FromUtf8Error),
}

impl From<std::io::Error> for Error {
    fn from(error: std::io::Error) -> (wrapped: Self) {
        Error::IO(error)
    }
}

impl FromSpecImpl<std::io::Error> for Error {
    open spec fn obeys_from_spec() -> bool {
        true
    }

    open spec fn from_spec(error: std::io::Error) -> Error {
        Error::IO(error)
    }
}

impl From<std::string::FromUtf8Error> for Error {
    fn from(error: std::string::FromUtf8Error) -> (wrapped: Self) {
        Error::Encoding(error)
    }
}

impl FromSpecImpl<std::string::FromUtf8Error> for Error {
    open spec fn obeys_from_spec() -> bool {
        true
    }

    open spec fn from_spec(error: std::string::FromUtf8Error) -> Error {
        Error::Encoding(error)
    }
}

/// A value that can be written in PostScript.
pub trait PostScript {
    /// Whether the value can be written.
    spec fn writable(&self) -> bool;

    /// The bytes that the value is written as.
    spec fn postscript(&self) -> Seq<u8>;

    /// Writes the value at the end of `w`. Where that fails, `w` still
    /// begins with what it held before.
    fn to_postscript(&self, w: &mut Vec<u8>) -> (result: Result<(), Error>)
        ensures
            result is Ok <==> self.writable(),
            result is Ok ==> final(w)@ == old(w)@ + self.postscript(),
            old(w)@.is_prefix_of(final(w)@),
    ;
}

/// The digits of a number in base ten, as characters, the highest first.
pub open spec fn decimal(number: nat) -> Seq<u8>
    decreases number,
{
    if number < 10 {
        seq![(48 + number) as u8]
    } else {
        decimal(number / 10).push((48 + number % 10) as u8)
    }
}

/// Writes a number in base ten.
fn write_decimal(number: u16, w: &mut Vec<u8>)
    ensures
        final(w)@ == old(w)@ + decimal(number as nat),
    decreases number,
{
    if number >= 10 {
        write_decimal(number / 10, w);
    }
    w.push(48 + (number % 10) as u8);
    assert(w@ =~= old(w)@ + decimal(number as nat));
}

impl PostScript for u16 {
    open spec fn writable(&self) -> bool {
        true
    }

    open spec fn postscript(&self) -> Seq<u8> {
        decimal(*self as nat)
    }

    fn to_postscript(&self, w: &mut Vec<u8>) -> (result: Result<(), Error>) {
        write_decimal(*self, w);
        Ok(())
    }
}

impl<T> PostScript for Point<T> where T: PostScript {
    open spec fn writable(&self) -> bool {
        self.x.writable() && self.y.writable()
    }

    open spec fn postscript(&self) -> Seq<u8> {
        "[".spec_bytes() + self.x.postscript() + " ".spec_bytes() + self.y.postscript()
            + "]".spec_bytes()
    }

    fn to_postscript(&self, w: &mut Vec<u8>) -> (result: Result<(), Error>) {
        append(w, "[".as_bytes());
        self.x.to_postscript(w)?;
        append(w, " ".as_bytes());
        self.y.to_postscript(w)?;
        append(w, "]".as_bytes());
        assert(w@ =~= old(w)@ + self.postscript());
        Ok(())
    }
}

/// What the items are written as, one after the other.
pub open spec fn joined<T: PostScript>(items: Seq<T>) -> Seq<u8>
    decreases items.len(),
{
    if items.len() == 0 {
        Seq::empty()
    } else {
        joined(items.drop_last()) + items.last().postscript()
    }
}

impl<T> PostScript for Vec<T> where T: PostScript {
    open spec fn writable(&self) -> bool {
        forall|index: int| 0 <= index < self@.len() ==> (#[trigger] self@[index]).writable()
    }

    open spec fn postscript(&self) -> Seq<u8> {
        "[".spec_bytes() + joined(self@) + "]".spec_bytes()
    }

    fn to_postscript(&self, w: &mut Vec<u8>) -> (result: Result<(), Error>) {
        append(w, "[".as_bytes());
        let mut index: usize = 0;
        while index < self.len()
            invariant
                index <= self@.len(),
                forall|earlier: int| 0 <= earlier < index ==> (#[trigger] self@[earlier]).writable(),
                w@ == old(w)@ + "[".spec_bytes() + joined(self@.take(index as int)),
            decreases self@.len() - index,
        {
            self[index].to_postscript(w)?;
            proof {
                assert(self@.take(index + 1).drop_last() =~= self@.take(index as int));
            }
            index += 1;
        }
        proof {
            assert(self@.take(index as int) =~= self@);
        }
        append(w, "]".as_bytes());
        Ok(())
    }
}

/// Whether a figure can be written: whether each of its points can.
pub open spec fn figure_writable<T: PostScript>(figure: &Figure<T>) -> bool
    decreases figure, 0nat,
{
    match figure {
        Figure::Open(points) => points.writable(),
        Figure::Closed(points) => points.writable(),
        Figure::Composed(figures) => figures_writable(figures@, figures@.len()),
    }
}

/// Whether the first `count` of `figures` can be written.
pub open spec fn figures_writable<T: PostScript>(figures: Seq<Figure<T>>, count: nat) -> bool
    decreases figures, count,
{
    if count == 0 || count > figures.len() {
        true
    } else {
        figures_writable(figures, (count - 1) as nat) && figure_writable(&figures[count - 1])
    }
}

/// The bytes that a figure is written as: between brackets its kind, and
/// then its points or, for a composed figure, its figures, between brackets
/// of their own.
pub open spec fn figure_postscript<T: PostScript>(figure: &Figure<T>) -> Seq<u8>
    decreases figure, 0nat,
{
    match figure {
        Figure::Open(points) => "[".spec_bytes() + "(open)".spec_bytes() + points.postscript()
            + "]".spec_bytes(),
        Figure::Closed(points) => "[".spec_bytes() + "(closed)".spec_bytes()
            + points.postscript() + "]".spec_bytes(),
        Figure::Composed(figures) => "[".spec_bytes() + "(compose)".spec_bytes()
            + "[".spec_bytes() + figures_postscript(figures@, figures@.len()) + "]".spec_bytes()
            + "]".spec_bytes(),
    }
}

/// The bytes that the first `count` of `figures` are written as, one after
/// the other.
pub open spec fn figures_postscript<T: PostScript>(figures: Seq<Figure<T>>, count: nat) -> Seq<u8>
    decreases figures, count,
{
    if count == 0 || count > figures.len() {
        Seq::empty()
    } else {
        figures_postscript(figures, (count - 1) as nat) + figure_postscript(&figures[count - 1])
    }
}

/// Writes a figure, and the figures that it is composed of.
fn write_figure<T: PostScript>(figure: &Figure<T>, w: &mut Vec<u8>) -> (result: Result<(), Error>)
    ensures
        result is Ok <==> figure_writable(figure),
        result is Ok ==> final(w)@ == old(w)@ + figure_postscript(figure),
        old(w)@.is_prefix_of(final(w)@),
    decreases figure,
{
    append(w, "[".as_bytes());
    match figure {
        Figure::Open(points) => {
            append(w, "(open)".as_bytes());
            points.to_postscript(w)?;
        },
        Figure::Closed(points) => {
            append(w, "(closed)".as_bytes());
            points.to_postscript(w)?;
        },
        Figure::Composed(figures) => {
            append(w, "(compose)".as_bytes());
            append(w, "[".as_bytes());
            let mut index: usize = 0;
            while index < figures.len()
                invariant
                    *figure == Figure::Composed(*figures),
                    index <= figures@.len(),
                    figures_writable(figures@, index as nat),
                    w@ == old(w)@ + "[".spec_bytes() + "(compose)".spec_bytes() + "[".spec_bytes()
                        + figures_postscript(figures@, index as nat),
                decreases figures@.len() - index,
            {
                proof {
                    assert(decreases_to!(*figure => figure->Composed_0));
                    assert(decreases_to!(*figures => figures@));
                    assert(decreases_to!(figures@ => figures@[index as int]));
                }
                match write_figure(&figures[index], w) {
                    Ok(()) => {},
                    Err(error) => {
                        proof {
                            lemma_one_unwritable(figures@, index as int, figures@.len());
                        }
                        return Err(error);
                    },
                }
                index += 1;
            }
            append(w, "]".as_bytes());
        },
    }
    append(w, "]".as_bytes());
    assert(w@ =~= old(w)@ + figure_postscript(figure));
    Ok(())
}

/// Figures of which one cannot be written cannot be written.
proof fn lemma_one_unwritable<T: PostScript>(figures: Seq<Figure<T>>, index: int, count: nat)
    requires
        0 <= index < count <= figures.len(),
        !figure_writable(&figures[index]),
    ensures
        !figures_writable(figures, count),
    decreases count,
{
    if index < count - 1 {
        lemma_one_unwritable(figures, index, (count - 1) as nat);
    }
}

impl<T> PostScript for Figure<T> where T: PostScript {
    open spec fn writable(&self) -> bool {
        figure_writable(self)
    }

    open spec fn postscript(&self) -> Seq<u8> {
        figure_postscript(self)
    }

    fn to_postscript(&self, w: &mut Vec<u8>) -> (result: Result<(), Error>) {
        write_figure(self, w)
    }
}

/// A template together with the figure to be drawn in it, if any.
pub struct Document<T> {
    pub template: Template,
    pub figure: Option<Figure<T>>,
}

impl<T> Document<T> {
    /// A document of the template alone.
    pub fn with(template: Template) -> (document: Self)
        ensures
            document.template == template,
            document.figure is None,
    {
        Self { template, figure: None }
    }

    /// Puts a figure in the document, in the place of the one that it had.
    pub fn embed<F>(&mut self, figure: F) where F: Into<Figure<T>>
        ensures
            final(self).template == old(self).template,
            final(self).figure matches Some(embedded) && call_ensures(
                F::into,
                (figure,),
                embedded,
            ),
    {
        self.figure = Some(figure.into())
    }
}

impl<T> Document<T> where T: PostScript {
    /// The data that the template is rendered with: the figure, as it is
    /// written, under the name `figure`, where there is a figure.
    pub open spec fn context(&self) -> Map<Seq<char>, Seq<char>> {
        match self.figure {
            Some(figure) => Map::<Seq<char>, Seq<char>>::empty().insert(
                "figure"@,
                decode_utf8(figure.postscript()),
            ),
            None => Map::<Seq<char>, Seq<char>>::empty(),
        }
    }
}

impl<T> PostScript for Document<T> where T: PostScript {
    open spec fn writable(&self) -> bool {
        match self.figure {
            Some(figure) => figure.writable() && valid_utf8(figure.postscript()),
            None => true,
        }
    }

    open spec fn postscript(&self) -> Seq<u8> {
        rendered(self.template@.source, self.template@.chunks, self.context())
    }

    fn to_postscript(&self, w: &mut Vec<u8>) -> (result: Result<(), Error>)
        ensures
            result is Err ==> final(w)@ == old(w)@,
            self.figure matches Some(figure) && figure.writable() && !valid_utf8(
                figure.postscript(),
            ) ==> result matches Err(Error::Encoding(_)),
    {
        let mut data: HashMap<String, String> = HashMap::new();
        proof {
            lemma_empty_map(data);
            assert(w@ =~= w@.subrange(0, w@.len() as int));
        }
        match &self.figure {
            Some(figure) => {
                let mut postscript: Vec<u8> = Vec::new();
                figure.to_postscript(&mut postscript)?;
                assert(postscript@ =~= figure.postscript());
                match text_of(postscript) {
                    Ok(text) => {
                        insert(&mut data, "figure".to_owned(), text);
                    },
                    Err(error) => {
                        return Err(Error::Encoding(error));
                    },
                }
            },
            None => {},
        }
        let data = Data { data };
        match self.template.render(w, &data) {
            Ok(()) => Ok(()),
            Err(error) => Err(Error::IO(error)),
        }
    }
}

/// `String::from_utf8`: the string that the bytes encode where they are
/// well-formed UTF-8, and an error where they are not.
#[verifier::external_body]
fn text_of(bytes: Vec<u8>) -> (result: Result<String, std::string::FromUtf8Error>)
    ensures
        match result {
            Ok(text) => valid_utf8(bytes@) && text@ == decode_utf8(bytes@),
            Err(_) => !valid_utf8(bytes@),
        },
{
    String::from_utf8(bytes)
}

} // verus!
