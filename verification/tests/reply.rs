use valkey_faces::reply::{as_string, parse_search, Dist, KnnHit, Reply, SearchError};

fn bulk(s: &str) -> Reply {
    Reply::BulkString(s.as_bytes().to_vec())
}

fn hits(reply: Vec<Reply>) -> Vec<KnnHit> {
    match parse_search(Reply::Array(reply)) {
        Ok(hits) => hits,
        Err(_) => panic!("the reply is readable"),
    }
}

#[test]
fn reply_texts() {
    assert_eq!(as_string(&bulk("Zoë")), "Zoë");
    assert_eq!(as_string(&Reply::BulkString(vec![b'a', 0xff, b'b'])), "a\u{FFFD}b");
    assert_eq!(as_string(&Reply::SimpleString("OK".to_string())), "OK");
    assert_eq!(as_string(&Reply::Int(-12)), "-12");
    let half = Reply::Double { bits: 0.5f64.to_bits(), text: "0.5".to_string() };
    assert_eq!(as_string(&half), "0.5");
    assert_eq!(as_string(&Reply::Array(vec![bulk("x")])), "");
    assert_eq!(as_string(&Reply::Other("nil".to_string())), "");
}

#[test]
fn an_empty_index_has_no_hits() {
    assert!(hits(vec![Reply::Int(0)]).is_empty());
    assert!(hits(vec![]).is_empty());
}

#[test]
fn hits_come_in_the_order_of_the_reply() {
    let found = hits(vec![
        Reply::Int(2),
        bulk("face:barack-obama:0"),
        Reply::Array(vec![bulk("name"), bulk("Barack Obama"), bulk("dist"), bulk("0.25")]),
        bulk("face:rose-leslie:1"),
        Reply::Array(vec![
            bulk("dist"),
            Reply::Double { bits: 0.75f64.to_bits(), text: "0.75".to_string() },
            bulk("name"),
            bulk("Rose Leslie"),
        ]),
    ]);
    assert_eq!(found.len(), 2);
    assert_eq!(found[0].name, "Barack Obama");
    assert!(matches!(&found[0].dist, Dist::Text(t) if t == "0.25"));
    assert_eq!(found[1].name, "Rose Leslie");
    assert!(matches!(found[1].dist, Dist::Double(b) if b == 0.75f64.to_bits()));
}

#[test]
fn distances_of_other_kinds() {
    let entry = |d: Reply| {
        hits(vec![
            Reply::Int(1),
            bulk("k"),
            Reply::Array(vec![bulk("name"), bulk("n"), bulk("dist"), d]),
        ])
    };
    assert!(matches!(entry(Reply::Int(1))[0].dist, Dist::Int(1)));
    assert!(matches!(entry(Reply::SimpleString("0.5".to_string()))[0].dist, Dist::Missing));
    assert!(matches!(entry(Reply::Other("nil".to_string()))[0].dist, Dist::Missing));
    assert!(matches!(&entry(bulk("far"))[0].dist, Dist::Text(t) if t == "far"));
}

#[test]
fn the_last_field_of_a_name_counts() {
    let found = hits(vec![
        Reply::Int(1),
        bulk("k"),
        Reply::Array(vec![
            bulk("name"),
            bulk("first"),
            bulk("other"),
            bulk("x"),
            bulk("name"),
            bulk("second"),
            bulk("dist"),
        ]),
    ]);
    assert_eq!(found[0].name, "second");
    assert!(matches!(found[0].dist, Dist::Missing));
}

#[test]
fn entries_without_a_name_are_passed_over() {
    let found = hits(vec![
        Reply::Int(2),
        bulk("k0"),
        Reply::Array(vec![bulk("dist"), bulk("0.1")]),
        bulk("k1"),
        Reply::Array(vec![bulk("name"), bulk("Ann")]),
        bulk("k2"),
    ]);
    assert_eq!(found.len(), 1);
    assert_eq!(found[0].name, "Ann");
}

#[test]
fn a_reply_that_is_no_array_is_refused() {
    let r = parse_search(Reply::SimpleString("OK".to_string()));
    assert!(matches!(r, Err(SearchError::UnexpectedReply(Reply::SimpleString(s))) if s == "OK"));
}

#[test]
fn fields_that_are_no_array_are_refused() {
    let r = parse_search(Reply::Array(vec![
        Reply::Int(3),
        bulk("k0"),
        Reply::Array(vec![bulk("name"), bulk("Ann")]),
        bulk("k1"),
        Reply::Int(7),
        bulk("k2"),
        Reply::Int(8),
    ]));
    assert!(matches!(r, Err(SearchError::UnexpectedFields(Reply::Int(7)))));
}
