use flatfile::dsl::{parse_relalgs, RelationParam};
use flatfile::plan::{plan_relation, Member, Plan, RelationError};
use flatfile::rel::{AnyRelation, Relation};
use flatfile::resolve::{
    create_relation, plan_named, requests, select_matching, Loaded, Request,
};
use flatfile::schema2::Schema2;
use flatfile::token::{Tokenizer, SPACE, TAB};
use flatfile::types::{ColumnType, ColumnValue};
use flatfile::vecbuf::Vecbuf;
use flatfile::write2::{schema_write, write_schema_v2};
use memmap::{Mmap, MmapMut};

fn map_of(bytes: &[u8]) -> Mmap {
    let mut m = MmapMut::map_anon(bytes.len()).unwrap();
    m.copy_from_slice(bytes);
    m.make_read_only().unwrap()
}

fn letters_file(column: &str, ctype: ColumnType, values: &[&str]) -> Mmap {
    let mut schema = Schema2::new();
    schema.add(column, ctype, false);
    schema.add("n", ColumnType::U32le, false);
    let mut vb = Vecbuf::new(4096);
    write_schema_v2(&mut vb, &schema);
    for (i, v) in values.iter().enumerate() {
        let first = match ctype {
            ColumnType::String => ColumnValue::String { v: v.to_string() },
            _ => ColumnValue::U64 { v: v.len() as u64 },
        };
        assert!(schema_write(&mut vb, &[first, ColumnValue::U32 { v: i as u32 }], &schema));
    }
    map_of(&vb.head(vb.tell()))
}

fn first_column(rel: &mut AnyRelation) -> Vec<String> {
    let mut out = Vec::new();
    while rel.read() {
        match rel.value(0) {
            ColumnValue::String { v } => out.push(v.clone()),
            other => panic!("no text: {:?}", other),
        }
    }
    out
}

#[test]
fn test_parsing() {
    let s = "hello = world {b r a c e} \"q u o t {e} d\"";
    let u = s.as_bytes();
    let mut t = Tokenizer::new(&u);
    let t1 = t.parse_token().unwrap();
    t.skip_whitespace(SPACE, TAB, TAB, TAB);
    let z = t.expect("=");
    assert!(z);
    t.skip_whitespace(SPACE, TAB, TAB, TAB);
    let t2 = t.parse_token().unwrap();
    t.skip_whitespace(SPACE, TAB, TAB, TAB);
    let t3 = t.parse_token().unwrap();
    t.skip_whitespace(SPACE, TAB, TAB, TAB);
    let t4 = t.parse_token().unwrap();
    assert!(t1 == "hello");
    assert!(t2 == "world");
    assert!(t3 == "{b r a c e}");
    assert!(t4 == "\"q u o t {e} d\"");
}

#[test]
fn test_union() {
    let rel = "a = file \"/tmp/_test1.dat\"\nb = union '/tmp/_test[XY].dat'";
    let rels = parse_relalgs(rel.as_bytes()).unwrap();
    assert_eq!(rels.len(), 2);
    let plan = plan_relation("b", &rels, rels.len()).unwrap();
    assert!(requests(&plan).is_empty());
    let mut rr = create_relation("b", rel, Vec::new()).unwrap();
    loop {
        let more = rr.read();
        if !more {
            break;
        }
    }
    assert!(!rr.is_described());
}

#[test]
fn tokens_are_words_and_quoted_runs() {
    let text = b"/a.*b/ word\t{x y}\r\n\"open";
    let mut t = Tokenizer::new(text);
    assert_eq!(t.parse_token().unwrap(), "/a.*b/");
    assert!(t.parse_token().is_none());
    assert!(t.skip_whitespace(SPACE, TAB, TAB, TAB));
    assert!(!t.skip_whitespace(SPACE, TAB, TAB, TAB));
    assert_eq!(t.parse_token().unwrap(), "word");
    assert!(!t.expect("{y"));
    assert!(t.expect("\t{x"));
    assert!(!t.eos());
    assert!(t.skip_whitespace(SPACE, TAB, TAB, TAB));
    assert_eq!(t.parse_token().unwrap(), "y}");
    assert!(t.skip_whitespace(b'\r', b'\n', b'\n', b'\n'));
    assert!(t.parse_token().is_none());
    assert!(!t.eos());
    assert!(!t.expect("\"open and more"));
    assert!(t.expect("\"open"));
    assert!(t.eos());
}

#[test]
fn statements_are_parsed_by_operator() {
    let text = "  \n a = file \"data one.dat\"\r\nb = project a x y\nc = unique b x\n\
                d = union \"f.dat\" /re.*/ c\ne = restrict d {x == 1}\n";
    let rels = parse_relalgs(text.as_bytes()).unwrap();
    assert_eq!(rels.len(), 5);
    match rels.get("a").unwrap() {
        RelationParam::File { filename } => assert_eq!(filename, "\"data one.dat\""),
        other => panic!("{:?}", other),
    }
    match rels.get("b").unwrap() {
        RelationParam::Projection { base, columns } => {
            assert_eq!(base, "a");
            assert_eq!(columns, &vec!["x".to_string(), "y".to_string()]);
        }
        other => panic!("{:?}", other),
    }
    match rels.get("c").unwrap() {
        RelationParam::Unique { base, columns } => {
            assert_eq!(base, "b");
            assert_eq!(columns, &vec!["x".to_string()]);
        }
        other => panic!("{:?}", other),
    }
    match rels.get("d").unwrap() {
        RelationParam::Union { relations } => {
            assert_eq!(relations, &vec!["\"f.dat\"".to_string(), "/re.*/".to_string(), "c".to_string()]);
        }
        other => panic!("{:?}", other),
    }
    match rels.get("e").unwrap() {
        RelationParam::Restriction { base, expr } => {
            assert_eq!(base, "d");
            assert_eq!(expr, "{x == 1}");
        }
        other => panic!("{:?}", other),
    }
    assert!(rels.get("f").is_none());
}

#[test]
fn later_statement_for_a_name_counts() {
    let rels = parse_relalgs(b"a = file x\na = file y").unwrap();
    match rels.get("a").unwrap() {
        RelationParam::File { filename } => assert_eq!(filename, "y"),
        other => panic!("{:?}", other),
    }
}

#[test]
fn malformed_statements_fail_the_text() {
    assert!(parse_relalgs(b"a file x").is_none());
    assert!(parse_relalgs(b"a =").is_none());
    assert!(parse_relalgs(b"a = file").is_none());
    assert!(parse_relalgs(b"a = file x y").is_none());
    assert!(parse_relalgs(b"a = project").is_none());
    assert!(parse_relalgs(b"a = sort b").is_none());
    assert!(parse_relalgs(b"a = restrict b").is_none());
    assert!(parse_relalgs(b"a = file x\nb = file").is_none());
    assert_eq!(parse_relalgs(b"").unwrap().len(), 0);
    assert_eq!(parse_relalgs(b"a = union").unwrap().len(), 1);
    assert_eq!(parse_relalgs(b"a = file x\n \nb = file y").unwrap().len(), 1);
    assert_eq!(plan_named("a", "a file x").err(), Some(RelationError::ParseError));
}

#[test]
fn plans_follow_names_down_to_files() {
    let text = "f = file \"one.dat\"\ng = file two.dat\nu = union f \"three.dat\" /x.*/ /y+/ \
                missing g\np = project u a\nq = unique p a\nr = restrict q {a}\nloop = unique loop a";
    let rels = parse_relalgs(text.as_bytes()).unwrap();
    let n = rels.len();
    match plan_relation("q", &rels, n).unwrap() {
        Plan::Unique { base, columns } => {
            assert_eq!(columns, vec!["a".to_string()]);
            match *base {
                Plan::Projection { base, .. } => match *base {
                    Plan::Union { members } => {
                        assert_eq!(members.len(), 5);
                        assert!(matches!(&members[0], Member::Named { plan: Plan::File { path } } if path == "one.dat"));
                        assert!(matches!(&members[1], Member::Path { path } if path == "three.dat"));
                        assert!(matches!(&members[2], Member::Pattern { dir, regex } if dir == "." && regex == "x.*"));
                        assert!(matches!(&members[3], Member::Pattern { dir, regex } if dir == "." && regex == "y+"));
                        assert!(matches!(&members[4], Member::Named { plan: Plan::File { path } } if path == "two.dat"));
                    }
                    _ => panic!("no union"),
                },
                _ => panic!("no projection"),
            }
        }
        _ => panic!("no unique"),
    }
    assert_eq!(plan_relation("nope", &rels, n).err(), Some(RelationError::UnresolvedName));
    assert_eq!(plan_relation("r", &rels, n).err(), Some(RelationError::UnresolvedName));
    assert_eq!(plan_relation("loop", &rels, n).err(), Some(RelationError::UnresolvedName));
    assert_eq!(plan_relation("f", &rels, 0).err(), Some(RelationError::UnresolvedName));

    let plan = plan_named("q", text).unwrap();
    let reqs = requests(&plan);
    assert_eq!(reqs.len(), 5);
    assert!(matches!(&reqs[0], Request::Open { path } if path == "one.dat"));
    assert!(matches!(&reqs[1], Request::Open { path } if path == "three.dat"));
    assert!(matches!(&reqs[2], Request::Scan { dir, regex } if dir == "." && regex == "x.*"));
    assert!(matches!(&reqs[3], Request::Scan { dir, regex } if dir == "." && regex == "y+"));
    assert!(matches!(&reqs[4], Request::Open { path } if path == "two.dat"));
}

#[test]
fn pattern_is_split_at_its_last_slash() {
    let mut rels = flatfile::dsl::Rels::new();
    rels.add(
        "u".to_string(),
        RelationParam::Union { relations: vec!["/data/sub/x.*/".to_string(), "//".to_string()] },
    );
    match plan_relation("u", &rels, 1).unwrap() {
        Plan::Union { members } => {
            assert!(matches!(&members[0], Member::Pattern { dir, regex } if dir == "data/sub" && regex == "x.*"));
            assert!(matches!(&members[1], Member::Pattern { dir, regex } if dir == "." && regex == ""));
        }
        _ => panic!("no union"),
    }
}

#[test]
fn union_of_two_files_yields_their_rows_in_order() {
    let text = "f1 = file \"one\"\nf2 = file \"two\"\nu = union f1 f2";
    let loaded = vec![
        Loaded::File { map: Some(letters_file("l", ColumnType::String, &["A", "B"])) },
        Loaded::File { map: Some(letters_file("l", ColumnType::String, &["C", "D"])) },
    ];
    let mut rel = create_relation("u", text, loaded).unwrap();
    assert_eq!(rel.length(), 2);
    assert_eq!(first_column(&mut rel), vec!["A", "B", "C", "D"]);
}

#[test]
fn relations_are_made_from_what_was_fetched() {
    let text = "u = union \"a\" /b.*/ \"odd\"\np = project u n l\nq = unique p l\n";
    let fetch = || {
        vec![
            Loaded::File { map: Some(letters_file("l", ColumnType::String, &["x", "y"])) },
            Loaded::Files {
                found: Some(vec![
                    ("b1".to_string(), letters_file("l", ColumnType::String, &["y", "z"])),
                    ("b2".to_string(), letters_file("l", ColumnType::String, &["x", "w"])),
                ]),
            },
            Loaded::File { map: Some(letters_file("l", ColumnType::U64le, &["skipped"])) },
        ]
    };
    let mut u = create_relation("u", text, fetch()).unwrap();
    assert_eq!(first_column(&mut u), vec!["x", "y", "y", "z", "x", "w"]);

    let mut p = create_relation("p", text, fetch()).unwrap();
    assert_eq!(p.name(0), "n");
    assert_eq!(p.name(1), "l");
    assert!(p.read());
    assert_eq!(p.value(0), &ColumnValue::U32 { v: 0 });

    let mut q = create_relation("q", text, fetch()).unwrap();
    let mut seen = Vec::new();
    while q.read() {
        seen.push(q.value(1).clone());
    }
    let texts: Vec<ColumnValue> =
        ["x", "y", "z", "w"].iter().map(|s| ColumnValue::String { v: s.to_string() }).collect();
    assert_eq!(seen, texts);
}

#[test]
fn making_a_relation_reports_what_went_wrong() {
    let file = || Loaded::File { map: Some(letters_file("l", ColumnType::String, &["x"])) };
    let err = |name: &str, text: &str, loaded: Vec<Loaded>| create_relation(name, text, loaded).err();

    assert_eq!(err("a", "a = file", vec![]), Some(RelationError::ParseError));
    assert_eq!(err("b", "a = file x", vec![file()]), Some(RelationError::UnresolvedName));
    assert_eq!(err("a", "a = file x", vec![]), Some(RelationError::FileNotFound));
    assert_eq!(
        err("a", "a = file x", vec![Loaded::File { map: None }]),
        Some(RelationError::FileNotFound)
    );
    assert_eq!(
        err("a", "a = file x", vec![Loaded::File { map: Some(map_of(&[b'9', 1, 2])) }]),
        Some(RelationError::Open(flatfile::err::OpenError::SchemaParseError))
    );
    assert_eq!(
        err("p", "a = file x\np = project a nope", vec![file()]),
        Some(RelationError::UnresolvedName)
    );
    assert_eq!(
        err("p", "e = union\np = unique e l", vec![]),
        Some(RelationError::UnresolvedName)
    );
    assert_eq!(
        err("u", "u = union /x/", vec![Loaded::Files { found: None }]),
        Some(RelationError::FileNotFound)
    );
    let mismatch = vec![Loaded::Files {
        found: Some(vec![
            ("1".to_string(), letters_file("l", ColumnType::String, &["x"])),
            ("2".to_string(), letters_file("l", ColumnType::U64le, &["x"])),
        ]),
    }];
    assert_eq!(err("u", "u = union /x/", mismatch), Some(RelationError::SchemaMismatchInUnion));
    assert!(create_relation("a", "a = file x", vec![file()]).is_ok());
}

#[test]
fn expressions_select_names() {
    let names: Vec<String> =
        ["_testX.dat", "other", "_testY.dat", "_testZ.dat"].iter().map(|s| s.to_string()).collect();
    assert_eq!(
        select_matching("_test[XY].dat", &names),
        Some(vec!["_testX.dat".to_string(), "_testY.dat".to_string()])
    );
    assert_eq!(select_matching("^other$", &names), Some(vec!["other".to_string()]));
    assert_eq!(select_matching("nothing", &names), Some(vec![]));
    assert_eq!(select_matching("(", &names), None);
    assert_eq!(select_matching("(", &Vec::new()), None);
}
