use extparse::{
    parse, parse_one, reconcile, scan, Chunk, Extension, ExtensionShape, IntoExtensionShape,
    Matcher, ParseError, SingleCharShape,
};

struct I;
impl SingleCharShape for I {
    const NAME: char = 'I';
}

struct M;
impl SingleCharShape for M {
    const NAME: char = 'M';
}

struct A;
impl SingleCharShape for A {
    const NAME: char = 'A';
}

struct C;
impl SingleCharShape for C {
    const NAME: char = 'C';
}

#[derive(Default)]
struct X(String);
impl IntoExtensionShape for X {
    fn as_shape(&self) -> ExtensionShape {
        ExtensionShape::Prefix(String::from("X"))
    }
}

struct G;
impl IntoExtensionShape for G {
    fn as_shape(&self) -> ExtensionShape {
        ExtensionShape::Multi(String::from("G"))
    }
    fn generate(&self) -> Vec<Extension> {
        ["i", "m", "a", "c"]
            .into_iter()
            .map(|x| Extension(x.to_string()))
            .collect()
    }
}

fn ext(s: &str) -> Extension {
    Extension(s.to_string())
}

fn exts(v: &[&str]) -> Vec<Extension> {
    v.iter().map(|s| ext(s)).collect()
}

fn tag(id: &str) -> Matcher {
    Matcher { shape: ExtensionShape::Tag(id.to_string()), expansion: vec![] }
}

fn prefix(id: &str) -> Matcher {
    Matcher { shape: ExtensionShape::Prefix(id.to_string()), expansion: vec![] }
}

fn imacx() -> Vec<Matcher> {
    vec![
        Matcher::new(&I),
        Matcher::new(&M),
        Matcher::new(&A),
        Matcher::new(&C),
        Matcher::new(&X::default()),
    ]
}

#[test]
fn identifier_of_each_shape() {
    assert_eq!(ExtensionShape::Tag("ab".to_string()).identifier(), "ab");
    assert_eq!(ExtensionShape::Prefix("X".to_string()).identifier(), "X");
    assert_eq!(ExtensionShape::Multi("G".to_string()).identifier(), "G");
}

#[test]
fn single_char_shape_is_a_tag_of_its_char() {
    let m = Matcher::new(&I);
    assert!(matches!(m.shape, ExtensionShape::Tag(_)));
    assert_eq!(m.shape.identifier(), "I");
    assert!(m.expansion.is_empty());
}

#[test]
fn matcher_takes_expansion_only_for_multi() {
    let g = Matcher::new(&G);
    assert_eq!(g.expansion, exts(&["i", "m", "a", "c"]));
    let x = Matcher::new(&X::default());
    assert!(x.expansion.is_empty());
}

#[test]
fn tag_matches_exactly_its_prefix() {
    let m = tag("ab");
    let (rest, toks) = parse_one("abc", &m).unwrap();
    assert_eq!(rest, "c");
    assert_eq!("abc".len() - rest.len(), 2);
    assert_eq!(toks, exts(&["ab"]));
    assert_eq!(parse_one("a", &m), Err(ParseError::NoMatch));
    assert_eq!(parse_one("xab", &m), Err(ParseError::NoMatch));
    assert_eq!(parse_one("", &m), Err(ParseError::NoMatch));
}

#[test]
fn tag_consumes_its_bytes() {
    let m = tag("é");
    let (rest, toks) = parse_one("éa", &m).unwrap();
    assert_eq!(rest, "a");
    assert_eq!("éa".len() - rest.len(), 2);
    assert_eq!(toks, exts(&["é"]));
}

#[test]
fn prefix_takes_whole_payload() {
    let (rest, toks) = parse_one("Xabcd", &Matcher::new(&X::default())).unwrap();
    assert_eq!(toks, exts(&["Xabcd"]));
    assert_eq!("Xabcd".len() - rest.len(), 5);
    assert_eq!(rest, "");
}

#[test]
fn prefix_stops_at_separator() {
    let (rest, toks) = parse_one("Xmyext_CMAI", &Matcher::new(&X::default())).unwrap();
    assert_eq!(toks, exts(&["Xmyext"]));
    assert_eq!("Xmyext_CMAI".len() - rest.len(), 7);
    assert_eq!(rest, "CMAI");
}

#[test]
fn prefix_consumes_one_separator_only() {
    let (rest, toks) = parse_one("Xab__c", &prefix("X")).unwrap();
    assert_eq!(toks, exts(&["Xab"]));
    assert_eq!(rest, "_c");
}

#[test]
fn prefix_needs_a_payload() {
    let m = prefix("X");
    assert_eq!(parse_one("X", &m), Err(ParseError::NoMatch));
    assert_eq!(parse_one("X_abc", &m), Err(ParseError::NoMatch));
    assert_eq!(parse_one("Yabc", &m), Err(ParseError::NoMatch));
}

#[test]
fn multi_expands_in_order() {
    let g = Matcher::new(&G);
    let (rest, toks) = parse_one("G", &g).unwrap();
    assert_eq!(toks, exts(&["i", "m", "a", "c"]));
    assert_eq!("G".len() - rest.len(), 1);
    assert_eq!(rest, "");
    assert_eq!(parse_one("q", &g), Err(ParseError::NoMatch));
}

#[test]
fn multi_leaves_what_follows_its_tag() {
    let (rest, toks) = parse_one("Gxyz", &Matcher::new(&G)).unwrap();
    assert_eq!(toks, exts(&["i", "m", "a", "c"]));
    assert_eq!(rest, "xyz");
}

#[test]
fn parse_in_input_order() {
    let r = parse("IMACXmyext", imacx());
    assert_eq!(r, Ok(exts(&["I", "M", "A", "C", "Xmyext"])));
}

#[test]
fn parse_orders_by_priority() {
    let r = parse("Xmyext_CMAI", imacx());
    assert_eq!(r, Ok(exts(&["I", "M", "A", "C", "Xmyext"])));
}

#[test]
fn parse_reports_unmatched_offset() {
    assert_eq!(
        parse("IMZ", imacx()),
        Err(ParseError::UnmatchedRemainder { offset: 2 })
    );
    assert_eq!(
        parse("Q", imacx()),
        Err(ParseError::UnmatchedRemainder { offset: 0 })
    );
}

#[test]
fn parse_reports_offset_in_bytes() {
    assert_eq!(
        parse("Xé_Z", imacx()),
        Err(ParseError::UnmatchedRemainder { offset: 4 })
    );
}

#[test]
fn parse_empty_input() {
    assert_eq!(parse("", imacx()), Ok(vec![]));
}

#[test]
fn parse_keeps_order_within_one_matcher() {
    let r = parse("Xb_IXa", vec![Matcher::new(&I), Matcher::new(&X::default())]);
    assert_eq!(r, Ok(exts(&["I", "Xb", "Xa"])));
}

#[test]
fn parse_first_matcher_wins() {
    let r = parse("Xab", vec![tag("X"), prefix("X"), prefix("a")]);
    assert_eq!(r, Ok(exts(&["X", "ab"])));
    let r = parse("Xab", vec![prefix("X"), tag("X"), prefix("a")]);
    assert_eq!(r, Ok(exts(&["Xab"])));
}

#[test]
fn parse_with_expansion() {
    let r = parse("XzGI", vec![Matcher::new(&I), Matcher::new(&G), Matcher::new(&X::default())]);
    assert_eq!(r, Ok(exts(&["XzGI"])));
    let r = parse("Xz_GI", vec![Matcher::new(&I), Matcher::new(&G), Matcher::new(&X::default())]);
    assert_eq!(r, Ok(exts(&["I", "i", "m", "a", "c", "Xz"])));
}

#[test]
fn scan_records_chunks_in_input_order() {
    let chunks = scan("Xa_IX", &[Matcher::new(&I), prefix("X"), tag("X")]).unwrap();
    let got: Vec<(usize, Vec<Extension>)> =
        chunks.into_iter().map(|c| (c.index, c.tokens)).collect();
    assert_eq!(got, vec![(1, exts(&["Xa"])), (0, exts(&["I"])), (2, exts(&["X"]))]);
}

#[test]
fn reconcile_sorts_stably() {
    let chunks = vec![
        Chunk { index: 1, tokens: exts(&["b"]) },
        Chunk { index: 0, tokens: exts(&["a"]) },
        Chunk { index: 1, tokens: exts(&["c", "d"]) },
        Chunk { index: 0, tokens: exts(&[]) },
    ];
    assert_eq!(reconcile(&chunks, 2), exts(&["a", "b", "c", "d"]));
    assert_eq!(reconcile(&vec![], 3), vec![]);
}

#[test]
fn default_expansion_is_empty() {
    assert!(X::default().generate().is_empty());
    assert!(I.generate().is_empty());
}

#[test]
fn single_char_as_shape_is_its_tag() {
    let s = M.as_shape();
    assert!(matches!(s, ExtensionShape::Tag(_)));
    assert_eq!(s.identifier(), "M");
}

#[test]
fn parse_advances_past_multibyte_payloads() {
    let r = parse("Xéü_IXa", vec![Matcher::new(&I), Matcher::new(&X::default())]);
    assert_eq!(r, Ok(exts(&["I", "Xéü", "Xa"])));
    let (rest, toks) = parse_one("Xé_ü", &prefix("X")).unwrap();
    assert_eq!(toks, exts(&["Xé"]));
    assert_eq!(rest, "ü");
}
