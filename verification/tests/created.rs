use serde::de::{Deserialize, Deserializer, Error, IgnoredAny, MapAccess, SeqAccess, Visitor};
use todone::created::{
    issue_from_members, issue_from_pair, parse_created, role_of, JsonFault, Role,
};
use todone::forge::{ForgeError, IssueCreated};

/// What a typed reading of the output takes it for.
struct Created {
    number: u64,
    url: String,
}

struct CreatedVisitor;

impl<'de> Visitor<'de> for CreatedVisitor {
    type Value = Created;

    fn expecting(&self, f: &mut std::fmt::Formatter) -> std::fmt::Result {
        f.write_str("struct Created")
    }

    fn visit_seq<A: SeqAccess<'de>>(self, mut seq: A) -> Result<Created, A::Error> {
        let wanted = "struct Created with 2 elements";
        let number = seq
            .next_element()?
            .ok_or_else(|| Error::invalid_length(0, &wanted))?;
        let url = seq
            .next_element()?
            .ok_or_else(|| Error::invalid_length(1, &wanted))?;
        Ok(Created { number, url })
    }

    fn visit_map<A: MapAccess<'de>>(self, mut map: A) -> Result<Created, A::Error> {
        let mut number: Option<u64> = None;
        let mut url: Option<String> = None;
        while let Some(key) = map.next_key::<String>()? {
            match key.as_str() {
                "number" => {
                    if number.is_some() {
                        return Err(Error::duplicate_field("number"));
                    }
                    number = Some(map.next_value()?);
                }
                "url" => {
                    if url.is_some() {
                        return Err(Error::duplicate_field("url"));
                    }
                    url = Some(map.next_value()?);
                }
                _ => {
                    map.next_value::<IgnoredAny>()?;
                }
            }
        }
        let number = number.ok_or_else(|| Error::missing_field("number"))?;
        let url = url.ok_or_else(|| Error::missing_field("url"))?;
        Ok(Created { number, url })
    }
}

impl<'de> Deserialize<'de> for Created {
    fn deserialize<D: Deserializer<'de>>(d: D) -> Result<Created, D::Error> {
        d.deserialize_struct("Created", &["number", "url"], CreatedVisitor)
    }
}

fn typed(text: &str) -> Result<IssueCreated, ForgeError> {
    let created: Result<Created, serde_json::Error> = serde_json::from_str(text);
    match created {
        Ok(c) => Ok(IssueCreated {
            number: c.number,
            url: c.url,
        }),
        Err(e) => Err(ForgeError::Parse(e.to_string())),
    }
}

#[test]
fn output_reads_as_a_typed_reader_reads_it() {
    let long = format!("{{\"x\": {}1{}}}", "[".repeat(300), "]".repeat(300));
    for text in [
        r#"{"number": 42, "url": "u"}"#,
        r#"{"url":"u","number":42}"#,
        " \n\t{ \"number\" : 42 ,\r\n \"url\" : \"u\" } \n",
        r#"{"id": {"number": [1, null, "}"]}, "number": 1, "title": "é", "url": "a\nb"}"#,
        r#"{"number": 7, "url": ""}"#,
        r#"{"n": 1e999, "number": 7, "url": "x"}"#,
        "[42, \"u\"]",
        " [ 42 , \"u\" ] ",
        // Members that come twice or not at all.
        r#"{"number": 1, "number": 2, "url": "u"}"#,
        "{\"number\": 1, \"url\": \"u\",\n  \"url\" \n : \"v\"}",
        "{\"\u{e9}\": 1, \"number\": 1, \"number\" }",
        r#"{"number": 1, "number"#,
        r#"{"number": 1, "number""#,
        "{}",
        " {\n}",
        r#"{"url": "u"}"#,
        r#"{"number": 3}"#,
        "{\"\u{e9}\": 1} x",
        // Values of other types.
        r#"{"number": "3", "url": "u"}"#,
        r#"{"number": -1, "url": "u"}"#,
        r#"{"number": 1.5, "url": "u"}"#,
        r#"{"number": 99999999999999999999, "url": "u"}"#,
        "{\"url\": \"u\",\n\"\u{e9}\": 1, \"number\": null}",
        r#"{"number": 3, "url": 4}"#,
        r#"{"number": 3, "url": {"a": 1}}"#,
        // Texts that are no JSON.
        "",
        "  \n ",
        "not json",
        "{",
        "{ ",
        "{,}",
        "{1: 2}",
        r#"{"number""#,
        r#"{"number" 1}"#,
        r#"{"number":}"#,
        r#"{"number":"#,
        r#"{"number": 1"#,
        r#"{"number": 1,"#,
        r#"{"number": 1,}"#,
        r#"{"number": 1, 2}"#,
        r#"{"number": 1 "url": "u"}"#,
        r#"{"number": 1x, "url": "u"}"#,
        r#"{"number": 012, "url": "u"}"#,
        "{\"number\": 1,\n \"url\": \"u\nv\"}",
        r#"{"number": 1, "url": "u\q"}"#,
        r#"{"number": 1, "url": "u"} 2"#,
        r#"{"number": 1, "url": "u"}}"#,
        r#"{"number": 1, "url": "u", "x": nul}"#,
        r#"{"number": 1, "url": "u", "x": [1 2]}"#,
        "{\"a\": 1,\n\"\u{e9}\" 2}",
        // Other documents.
        "[]",
        "[42]",
        "[42, \"u\", 1]",
        "[\"u\", 42]",
        "[42, 43]",
        "[42, \"u\"",
        "[42, \"u\"] 1",
        "42",
        "null",
        "\"a tuple of size 2\"",
        "[\", expected a tuple of size 2 at line 1 column 52\"]",
        long.as_str(),
    ] {
        assert_eq!(parse_created(text), typed(text), "{text}");
    }
}

#[test]
fn repeated_members_are_refused() {
    assert_eq!(
        parse_created(r#"{"number": 1, "number": 2, "url": "u"}"#).unwrap_err(),
        ForgeError::Parse("duplicate field `number` at line 1 column 22".into())
    );
    assert_eq!(
        parse_created(r#"{"number": 1}"#).unwrap_err(),
        ForgeError::Parse("missing field `url` at line 1 column 13".into())
    );
}

#[test]
fn roles_of_members() {
    assert_eq!(role_of("number", false, true), Role::Number);
    assert_eq!(role_of("number", true, false), Role::Duplicate);
    assert_eq!(role_of("url", true, false), Role::Url);
    assert_eq!(role_of("url", false, true), Role::Duplicate);
    assert_eq!(role_of("title", true, true), Role::Other);
}

#[test]
fn members_make_an_issue() {
    let issue = issue_from_members(Some(3), Some("u".into()), 1, 2, None).unwrap();
    assert_eq!((issue.number, issue.url.as_str()), (3, "u"));
    assert_eq!(
        issue_from_members(None, None, 2, 5, Some("x".into())).unwrap_err(),
        "missing field `number` at line 2 column 5"
    );
    assert_eq!(
        issue_from_members(Some(1), None, 2, 5, None).unwrap_err(),
        "missing field `url` at line 2 column 5"
    );
    assert_eq!(
        issue_from_members(Some(1), Some("u".into()), 2, 5, Some("x".into())).unwrap_err(),
        "x"
    );
}

#[test]
fn pairs_make_an_issue() {
    let issue = issue_from_pair(Ok((3, "u".into()))).unwrap();
    assert_eq!((issue.number, issue.url.as_str()), (3, "u"));
    let fault = |text: &str| JsonFault {
        text: text.into(),
        line: 1,
        column: 2,
    };
    assert_eq!(
        issue_from_pair(Err(fault(
            "invalid length 0, expected a tuple of size 2 at line 1 column 2"
        ))),
        Err("invalid length 0, expected struct Created with 2 elements at line 1 column 2".into())
    );
    assert_eq!(
        issue_from_pair(Err(fault(
            "invalid type: null, expected a tuple of size 2 at line 1 column 2"
        ))),
        Err("invalid type: null, expected struct Created at line 1 column 2".into())
    );
    assert_eq!(issue_from_pair(Err(fault("eof"))), Err("eof".into()));
}
