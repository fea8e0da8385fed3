use prototype::figure::{closed, compose, open, Figure, Point};
use prototype::postscript::{Document, PostScript};
use prototype::template::compile;

#[test]
fn mod_points_are_equal_when_coordinates_are_equal() {
    let u: Point<u16> = Point::from([0, 1]);
    let v: Point<u16> = Point::from([0, 1]);

    assert_eq!(u, v);
}

#[test]
fn mod_points_are_different_when_coordinates_are_unequal() {
    let u: Point<u16> = Point::from([0, 1]);
    let v: Point<u16> = Point::from([0, 0]);
    let w: Point<u16> = Point::from([1, 0]);

    assert!(u != v);
    assert!(u != w);
    assert!(v != w);
}

#[test]
fn lib_points_are_equal_when_coordinates_are_equal() {
    let u: prototype::Point<u16> = prototype::Point::from([0, 1]);
    let v: prototype::Point<u16> = prototype::Point::from([0, 1]);

    assert_eq!(u, v);
}

#[test]
fn lib_points_are_different_when_coordinates_are_unequal() {
    let u: prototype::Point<u16> = prototype::Point::from([0, 1]);
    let v: prototype::Point<u16> = prototype::Point::from([0, 0]);
    let w: prototype::Point<u16> = prototype::Point::from([1, 0]);

    assert!(u != v);
    assert!(u != w);
    assert!(v != w);
}

#[test]
fn a_point_keeps_its_coordinates_in_order() {
    let point: Point<u16> = Point::from([3, 4]);
    assert_eq!(point.x, 3);
    assert_eq!(point.y, 4);
}

#[test]
fn figures_keep_what_they_are_made_of() {
    let line = open(vec![Point::from([1u16, 2]), Point::from([3, 4])]);
    assert!(matches!(&line, Figure::Open(points) if points.len() == 2 && points[1] == Point::from([3, 4])));
    let ring = closed(vec![Point::from([5u16, 6])]);
    assert!(matches!(&ring, Figure::Closed(points) if points.len() == 1 && points[0] == Point::from([5, 6])));
    let both = compose(vec![line, ring]);
    match both {
        Figure::Composed(figures) => {
            assert_eq!(figures.len(), 2);
            assert!(matches!(figures[0], Figure::Open(_)));
            assert!(matches!(figures[1], Figure::Closed(_)));
        }
        _ => panic!("a composed figure"),
    }
}

#[test]
fn a_document_starts_without_a_figure_and_takes_one() {
    let template = compile("{{figure}}").expect("template to compile");
    let mut document: Document<u16> = Document::with(template);
    assert!(document.figure.is_none());
    document.embed(open(vec![Point::from([1u16, 2])]));
    assert!(matches!(&document.figure, Some(Figure::Open(points)) if points.len() == 1));
    document.embed(closed(vec![]));
    assert!(matches!(&document.figure, Some(Figure::Closed(points)) if points.is_empty()));
}

fn written<P: PostScript>(value: &P) -> String {
    let mut bytes = Vec::new();
    value.to_postscript(&mut bytes).expect("a value to write");
    String::from_utf8(bytes).expect("utf8 string")
}

#[test]
fn a_number_is_written_in_base_ten() {
    assert_eq!(written(&0u16), "0");
    assert_eq!(written(&7u16), "7");
    assert_eq!(written(&10u16), "10");
    assert_eq!(written(&900u16), "900");
    assert_eq!(written(&65535u16), "65535");
}

#[test]
fn a_point_is_written_between_brackets() {
    let point: Point<u16> = Point::from([100, 900]);
    assert_eq!(written(&point), "[100 900]");
}

#[test]
fn a_list_is_written_between_brackets_without_separators() {
    let none: Vec<u16> = vec![];
    assert_eq!(written(&none), "[]");
    assert_eq!(written(&vec![1u16, 20, 3]), "[1203]");
    assert_eq!(written(&vec![Point::from([1u16, 2]), Point::from([3, 4])]), "[[1 2][3 4]]");
}

#[test]
fn a_figure_is_written_with_its_kind() {
    let line = open(vec![Point::from([1u16, 2]), Point::from([3, 4])]);
    assert_eq!(written(&line), "[(open)[[1 2][3 4]]]");
    let ring = closed(vec![Point::from([5u16, 6])]);
    assert_eq!(written(&ring), "[(closed)[[5 6]]]");
    let both = compose(vec![line, ring, compose(vec![])]);
    assert_eq!(
        written(&both),
        "[(compose)[[(open)[[1 2][3 4]]][(closed)[[5 6]]][(compose)[]]]]"
    );
}

#[test]
fn writing_adds_to_what_the_writer_holds() {
    let mut bytes = b"x".to_vec();
    12u16.to_postscript(&mut bytes).expect("a number to write");
    Point::from([3u16, 4]).to_postscript(&mut bytes).expect("a point to write");
    assert_eq!(bytes, b"x12[3 4]".to_vec());
}

#[test]
fn a_document_renders_its_figure_in_its_template() {
    let template = compile("<< {{figure}} >> {{other}}").expect("template to compile");
    let mut document: Document<u16> = Document::with(template);
    assert_eq!(written(&document), "<< {{figure}} >> {{other}}");
    document.embed(closed(vec![Point::from([5u16, 6])]));
    assert_eq!(written(&document), "<< [(closed)[[5 6]]] >> {{other}}");
}
