//! Documents, decoded as a driver does it: a reading is repeated, after the source was asked for
//! one chunk more, until it has an outcome.

use std::collections::{BTreeMap, HashMap, HashSet};

use destream_json::{Any, Decoder, Error, MapAccess, Number, SeqAccess, Stage, Step};

struct Reader {
    decoder: Decoder,
    chunks: Vec<Vec<u8>>,
}

impl Reader {
    fn new(chunks: Vec<Vec<u8>>) -> Self {
        Reader {
            decoder: Decoder::new(),
            chunks,
        }
    }

    fn of(text: &str) -> Self {
        Reader::new(vec![text.as_bytes().to_vec()])
    }

    fn read<T>(
        &mut self,
        mut op: impl FnMut(&mut Decoder) -> Step<T, Error>,
    ) -> Result<T, String> {
        loop {
            match op(&mut self.decoder) {
                Step::Done(value) => return Ok(value),
                Step::Failed(error) => return Err(error.to_string()),
                Step::More => {
                    assert!(self.decoder.stage() == Stage::Open);
                    let data = if self.chunks.is_empty() {
                        None
                    } else {
                        Some(self.chunks.remove(0))
                    };
                    self.decoder.buffer(data);
                }
            }
        }
    }

    fn list<T>(
        &mut self,
        hint: Option<usize>,
        mut element: impl FnMut(&mut Reader) -> Result<T, String>,
    ) -> Result<Vec<T>, String> {
        let access = self.read(|d| SeqAccess::new(d, hint))?;
        assert_eq!(access.size_hint(), hint);
        let mut values = Vec::new();
        while self.read(|d| access.next_element(d))? {
            values.push(element(self)?);
            self.read(|d| access.end_element(d))?;
        }
        Ok(values)
    }

    fn map<K, V>(
        &mut self,
        mut key: impl FnMut(&mut Reader) -> Result<K, String>,
        mut value: impl FnMut(&mut Reader) -> Result<V, String>,
    ) -> Result<Vec<(K, V)>, String> {
        let mut access = self.read(|d| MapAccess::new(d, None))?;
        assert_eq!(access.size_hint(), None);
        let mut entries = Vec::new();
        while self.read(|d| access.next_key(d))? {
            let k = key(self)?;
            self.read(|d| access.next_value(d))?;
            let v = value(self)?;
            self.read(|d| access.end_value(d))?;
            entries.push((k, v));
        }
        Ok(entries)
    }
}

fn boolean(text: &str) -> bool {
    Reader::of(text).read(|d| d.parse_bool()).unwrap()
}

fn string(text: &str) -> String {
    Reader::of(text).read(|d| d.decode_string()).unwrap()
}

fn float32(r: &mut Reader) -> Result<f32, String> {
    let text = r.read(|d| d.parse_number())?;
    Ok(text.parse().unwrap())
}

fn option(r: &mut Reader) -> Result<Option<bool>, String> {
    if r.read(|d| d.decode_option())? {
        Ok(Some(r.read(|d| d.parse_bool())?))
    } else {
        Ok(None)
    }
}

#[test]
fn test_json_primitives() {
    assert_eq!(boolean("true"), true);
    assert_eq!(boolean("false"), false);

    assert_eq!(Reader::of("1").read(|d| d.decode_u8()).unwrap(), 1);
    assert_eq!(Reader::of(" 2 ").read(|d| d.decode_u16()).unwrap(), 2);
    assert_eq!(Reader::of("4658 ").read(|d| d.decode_u32()).unwrap(), 4658);
    assert_eq!(
        Reader::of(&2u64.pow(63).to_string()).read(|d| d.decode_u64()).unwrap(),
        2u64.pow(63)
    );

    assert_eq!(Reader::of("-1").read(|d| d.decode_i8()).unwrap(), -1);
    assert_eq!(Reader::of("\t\n-32").read(|d| d.decode_i16()).unwrap(), -32);
    assert_eq!(Reader::of("53\t").read(|d| d.decode_i32()).unwrap(), 53);
    assert_eq!(
        Reader::of(&(-2i64).pow(63).to_string()).read(|d| d.decode_i64()).unwrap(),
        (-2i64).pow(63)
    );

    assert_eq!(float32(&mut Reader::of("2e2")).unwrap(), 2e2);
    assert_eq!(float32(&mut Reader::of("-2e-3")).unwrap(), -2e-3);
    assert_eq!(
        Reader::of("3.14").read(|d| d.parse_number()).unwrap().parse::<f64>().unwrap(),
        3.14
    );
    assert_eq!(float32(&mut Reader::of("-1.414e4")).unwrap(), -1.414e4);

    assert_eq!(string("\"hello world\""), "hello world".to_string());
    assert_eq!(
        string("\t\r\n\" hello world \""),
        " hello world ".to_string()
    );
}

#[test]
fn test_bytes() {
    let expected = "मकर संक्रान्ति";
    let mut reader = Reader::of(&format!("\"{}\"", base64::encode(expected.as_bytes())));
    let actual = reader.read(|d| d.decode_byte_buf()).unwrap();
    assert_eq!(expected.as_bytes().to_vec(), actual);
}

#[test]
fn test_seq() {
    assert_eq!(
        Reader::of("[1, 2, 3]").list(None, |r| r.read(|d| d.decode_u8())).unwrap(),
        vec![1, 2, 3]
    );

    let mut reader = Reader::of("\t[\r\n\rtrue,\r\n\t-1,\r\n\t\"hello world. \"\r\n]");
    let access = reader.read(|d| SeqAccess::new(d, Some(3))).unwrap();
    assert_eq!(access.size_hint(), Some(3));
    assert!(reader.read(|d| access.next_element(d)).unwrap());
    let first = reader.read(|d| d.parse_bool()).unwrap();
    reader.read(|d| access.end_element(d)).unwrap();
    assert!(reader.read(|d| access.next_element(d)).unwrap());
    let second = reader.read(|d| d.decode_i16()).unwrap();
    reader.read(|d| access.end_element(d)).unwrap();
    assert!(reader.read(|d| access.next_element(d)).unwrap());
    let third = reader.read(|d| d.decode_string()).unwrap();
    reader.read(|d| access.end_element(d)).unwrap();
    assert!(!reader.read(|d| access.next_element(d)).unwrap());
    assert_eq!(
        (first, second, third),
        (true, -1i16, "hello world. ".to_string())
    );

    assert_eq!(
        Reader::of(" [ 1.23, 4e3, -3.45]\n").list(Some(3), float32).unwrap(),
        [1.23, 4e3, -3.45]
    );

    let actual: HashSet<String> = Reader::of("[\"one\", \"two\", \"three\"]")
        .list(None, |r| r.read(|d| d.decode_string()))
        .unwrap()
        .into_iter()
        .collect();
    let expected: HashSet<String> =
        vec!["one", "two", "three"].into_iter().map(String::from).collect();
    assert_eq!(actual, expected);
}

#[test]
fn test_map() {
    let actual: HashMap<String, bool> = Reader::of("\r\n\t{ \"k1\":\ttrue, \"k2\":false}")
        .map(
            |r| r.read(|d| d.decode_string()),
            |r| r.read(|d| d.parse_bool()),
        )
        .unwrap()
        .into_iter()
        .collect();
    let expected: HashMap<String, bool> =
        vec![("k1".to_string(), true), ("k2".to_string(), false)].into_iter().collect();
    assert_eq!(actual, expected);

    let actual: BTreeMap<i32, Option<bool>> = Reader::of("\r\n\t{ -1:\ttrue, 2:null}")
        .map(|r| r.read(|d| d.decode_i32()), option)
        .unwrap()
        .into_iter()
        .collect();
    let expected: BTreeMap<i32, Option<bool>> =
        vec![(-1, Some(true)), (2, None)].into_iter().collect();
    assert_eq!(actual, expected);
}

/// A document, cut in two at every place.
fn halves(text: &str) -> Vec<Vec<Vec<u8>>> {
    let bytes = text.as_bytes();
    (0..bytes.len() + 1)
        .map(|i| vec![bytes[..i].to_vec(), bytes[i..].to_vec()])
        .collect()
}

/// A document, byte by byte, with empty chunks between them.
fn bytewise(text: &str) -> Vec<Vec<u8>> {
    let mut chunks = Vec::new();
    for byte in text.as_bytes() {
        chunks.push(vec![]);
        chunks.push(vec![*byte]);
    }
    chunks
}

#[test]
fn chunks_make_no_difference_to_lists() {
    let text = " [ 10 ,-2,300\t, 4] ";
    let mut cuts = halves(text);
    cuts.push(bytewise(text));
    for chunks in cuts {
        let actual = Reader::new(chunks).list(None, |r| r.read(|d| d.decode_i16()));
        assert_eq!(actual, Ok(vec![10, -2, 300, 4]));
    }
}

#[test]
fn chunks_make_no_difference_to_maps() {
    let text = "{\"a\\\"b\" : true , \"मकर\":\n\tfalse,\"\" :false }";
    let mut cuts = halves(text);
    cuts.push(bytewise(text));
    for chunks in cuts {
        let actual = Reader::new(chunks).map(
            |r| r.read(|d| d.decode_string()),
            |r| r.read(|d| d.parse_bool()),
        );
        assert_eq!(
            actual,
            Ok(vec![
                ("a\\\"b".to_string(), true),
                ("मकर".to_string(), false),
                ("".to_string(), false)
            ])
        );
    }
}

#[test]
fn chunks_make_no_difference_to_lists_of_optional_values() {
    for (text, expected) in [
        ("[1]", vec![Some(1)]),
        ("[ null,2 , 345,null ]", vec![None, Some(2), Some(345), None]),
        ("[ \t]", vec![]),
    ] {
        let mut cuts = halves(text);
        cuts.push(bytewise(text));
        for chunks in cuts {
            let actual = Reader::new(chunks).list(None, |r| {
                if r.read(|d| d.decode_option())? {
                    Ok(Some(r.read(|d| d.decode_u16())?))
                } else {
                    Ok(None)
                }
            });
            assert_eq!(actual, Ok(expected.clone()));
        }
    }
}

#[test]
fn chunks_make_no_difference_to_tuples() {
    let text = " [ true,-7 , \"x\" ] ";
    let mut cuts = halves(text);
    cuts.push(bytewise(text));
    for chunks in cuts {
        let mut place = 0;
        let actual = Reader::new(chunks).list(Some(3), |r| {
            place += 1;
            match place {
                1 => Ok(r.read(|d| d.parse_bool())?.to_string()),
                2 => Ok(r.read(|d| d.decode_i16())?.to_string()),
                _ => r.read(|d| d.decode_string()),
            }
        });
        let expected = vec!["true".to_string(), "-7".to_string(), "x".to_string()];
        assert_eq!(actual, Ok(expected));
    }
}

#[test]
fn chunks_make_no_difference_to_null_but_for_the_message() {
    for (text, found) in [(" null]", true), ("nulxy", false), ("nope", false), ("", false)] {
        let mut cuts = halves(text);
        cuts.push(bytewise(text));
        for chunks in cuts {
            let mut reader = Reader::new(chunks.clone());
            assert_eq!(reader.read(|d| d.parse_unit()).is_ok(), found);
            if text.len() > 0 {
                reader.read(|d| d.expect_byte(b'n')).unwrap();
            }
            let ignored = Reader::new(chunks).read(|d| d.ignore_value());
            assert_eq!(ignored.is_ok(), found || text.is_empty());
        }
    }
    let message = |chunks: Vec<Vec<u8>>| Reader::new(chunks).read(|d| d.parse_unit());
    assert_eq!(
        message(vec![b"nulxy".to_vec()]),
        Err("invalid type: nulxy, expected null".to_string())
    );
    assert_eq!(
        message(vec![b"nulx".to_vec(), b"y".to_vec()]),
        Err("invalid type: nulx, expected null".to_string())
    );
}

#[test]
fn chunks_make_no_difference_to_nested_lists() {
    let text = "[[1.5,2],[ ] , [ -3e1 ]]";
    let mut cuts = halves(text);
    cuts.push(bytewise(text));
    for chunks in cuts {
        let actual = Reader::new(chunks)
            .list(None, |r| r.list(None, |r| r.read(|d| d.parse_number())));
        let expected: Vec<Vec<String>> = vec![
            vec!["1.5".to_string(), "2".to_string()],
            vec![],
            vec!["-3e1".to_string()],
        ];
        assert_eq!(actual, Ok(expected));
    }
}

#[test]
fn chunks_make_no_difference_to_any() {
    for text in ["-12.5e3]", "-12.5e3", "77", "true", "false", "null ", "\"text\"", "77,", "{", "["] {
        let mut cuts = halves(text);
        cuts.push(bytewise(text));
        for chunks in cuts {
            let any = Reader::new(chunks).read(|d| d.decode_any("anything")).unwrap();
            match text {
                "-12.5e3]" | "-12.5e3" => assert!(matches!(any, Any::Number(Number::Float(t)) if t == "-12.5e3")),
                "true" => assert!(matches!(any, Any::Bool(true))),
                "false" => assert!(matches!(any, Any::Bool(false))),
                "null " => assert!(matches!(any, Any::Null)),
                "\"text\"" => assert!(matches!(any, Any::Text(t) if t == "text")),
                "77," | "77" => assert!(matches!(any, Any::Number(Number::Integer(77)))),
                "{" => assert!(matches!(any, Any::MapBegin)),
                _ => assert!(matches!(any, Any::ListBegin)),
            }
        }
    }
}

#[test]
fn nested_values_are_read_as_the_document_tells() {
    let mut reader = Reader::of(" {\"k\": [null, 1 , \"x\"]} ");
    assert!(matches!(reader.read(|d| d.decode_any("a map")), Ok(Any::MapBegin)));
    let mut map = MapAccess::opened();
    assert!(reader.read(|d| map.next_key(d)).unwrap());
    assert_eq!(reader.read(|d| d.decode_string()).unwrap(), "k");
    reader.read(|d| map.next_value(d)).unwrap();
    assert!(matches!(reader.read(|d| d.decode_any("a list")), Ok(Any::ListBegin)));
    let list = SeqAccess::opened();
    assert!(reader.read(|d| list.next_element(d)).unwrap());
    assert!(matches!(reader.read(|d| d.decode_any("")), Ok(Any::Null)));
    reader.read(|d| list.end_element(d)).unwrap();
    assert!(reader.read(|d| list.next_element(d)).unwrap());
    assert!(matches!(
        reader.read(|d| d.decode_any("")),
        Ok(Any::Number(Number::Integer(1)))
    ));
    reader.read(|d| list.end_element(d)).unwrap();
    assert!(reader.read(|d| list.next_element(d)).unwrap());
    assert!(matches!(reader.read(|d| d.decode_any("")), Ok(Any::Text(t)) if t == "x"));
    reader.read(|d| list.end_element(d)).unwrap();
    assert!(!reader.read(|d| list.next_element(d)).unwrap());
    reader.read(|d| map.end_value(d)).unwrap();
    assert!(!reader.read(|d| map.next_key(d)).unwrap());
}

#[test]
fn empty_lists_and_maps() {
    let none: Vec<u8> = Vec::new();
    assert_eq!(
        Reader::of("[ ]").list(None, |r| r.read(|d| d.decode_u8())).unwrap(),
        none
    );
    assert!(Reader::of(" { } ")
        .map(|r| r.read(|d| d.decode_u8()), |r| r.read(|d| d.decode_u8()))
        .unwrap()
        .is_empty());
}

#[test]
fn a_missing_delimiter_is_an_error() {
    assert_eq!(
        Reader::of("[1 2]").list(None, |r| r.read(|d| d.decode_u8())),
        Err("invalid value: 2, expected ,".to_string())
    );
    assert_eq!(
        Reader::of("{1 2}").map(|r| r.read(|d| d.decode_u8()), |r| r.read(|d| d.decode_u8())),
        Err("invalid value: 2, expected :".to_string())
    );
    assert_eq!(
        Reader::of("(1)").list(None, |r| r.read(|d| d.decode_u8())),
        Err("invalid value: (, expected [".to_string())
    );
    assert_eq!(
        Reader::of("[1").list(None, |r| r.read(|d| d.decode_u8())),
        Err("unexpected end of stream".to_string())
    );
}
