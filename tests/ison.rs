use ison_rs::{dumps, dumps_isonl, ison_to_isonl, isonl_to_ison, loads, parse, parse_isonl};
use ison_rs::{Block, Document, FieldInfo, Reference, Row, Value};

#[test]
fn test_parse_simple_table() {
    let ison = r#"table.users
id name email
1 Alice alice@example.com
2 Bob bob@example.com"#;

    let doc = parse(ison).unwrap();
    let users = doc.get("users").unwrap();

    assert_eq!(users.kind, "table");
    assert_eq!(users.name, "users");
    assert_eq!(users.len(), 2);
    assert_eq!(users.fields, vec!["id", "name", "email"]);

    assert_eq!(users.rows[0].get("id").unwrap().as_int(), Some(1));
    assert_eq!(users.rows[0].get("name").unwrap().as_str(), Some("Alice"));
}

#[test]
fn test_parse_references() {
    let ison = r#"table.orders
id user_id
1 :42
2 :user:101
3 :MEMBER_OF:10"#;

    let doc = parse(ison).unwrap();
    let orders = doc.get("orders").unwrap();

    let ref1 = orders.rows[0].get("user_id").unwrap().as_reference().unwrap();
    assert_eq!(ref1.id, "42");
    assert!(ref1.ref_type.is_none());

    let ref2 = orders.rows[1].get("user_id").unwrap().as_reference().unwrap();
    assert_eq!(ref2.id, "101");
    assert_eq!(ref2.ref_type, Some("user".to_string()));
    assert!(!ref2.is_relationship());

    let ref3 = orders.rows[2].get("user_id").unwrap().as_reference().unwrap();
    assert_eq!(ref3.id, "10");
    assert!(ref3.is_relationship());
}

#[test]
fn test_type_inference() {
    let ison = r#"table.test
int_val float_val bool_val null_val str_val
42 3.14 true null hello"#;

    let doc = parse(ison).unwrap();
    let test = doc.get("test").unwrap();

    assert!(test.rows[0].get("int_val").unwrap().is_int());
    assert!(test.rows[0].get("float_val").unwrap().is_float());
    assert!(test.rows[0].get("bool_val").unwrap().is_bool());
    assert!(test.rows[0].get("null_val").unwrap().is_null());
    assert!(test.rows[0].get("str_val").unwrap().is_string());
}

#[test]
fn test_roundtrip() {
    let source = r#"table.users
id name email
1 Alice alice@example.com
2 Bob bob@example.com"#;

    let doc = parse(source).unwrap();
    let serialized = dumps(&doc, true);
    let doc2 = parse(&serialized).unwrap();

    assert_eq!(doc2.get("users").unwrap().len(), 2);
}

#[test]
fn test_isonl() {
    let isonl = "table.users|id name|1 Alice\ntable.users|id name|2 Bob";

    let doc = parse_isonl(isonl).unwrap();
    let users = doc.get("users").unwrap();

    assert_eq!(users.len(), 2);
    assert_eq!(users.rows[0].get("name").unwrap().as_str(), Some("Alice"));
}

fn token_value(token: &str) -> Value {
    let text = format!("table.t\nv\n{}", token);
    let doc = parse(&text).unwrap();
    doc.blocks[0].rows[0].get("v").unwrap().clone()
}

#[test]
fn inference_precedence_scalars() {
    assert_eq!(token_value("true"), Value::Bool(true));
    assert_eq!(token_value("false"), Value::Bool(false));
    assert_eq!(token_value("42"), Value::Int(42));
    assert_eq!(token_value("-7"), Value::Int(-7));
    assert_eq!(token_value("42.5"), Value::Float("42.5".to_string()));
    assert_eq!(token_value("1e3"), Value::Float("1e3".to_string()));
    assert_eq!(token_value("null"), Value::Null);
    assert_eq!(token_value("~"), Value::Null);
    assert_eq!(token_value("hello"), Value::String("hello".to_string()));
}

#[test]
fn inference_precedence_references() {
    assert_eq!(token_value(":7"), Value::Reference(Reference::new("7")));
    assert_eq!(token_value(":user:101"), Value::Reference(Reference::with_type("101", "user")));
    let rel = token_value(":MEMBER_OF:10");
    let r = rel.as_reference().unwrap();
    assert_eq!(r.id, "10");
    assert_eq!(r.ref_type.as_deref(), Some("MEMBER_OF"));
    assert!(r.is_relationship());
    assert_eq!(r.relationship_type(), Some("MEMBER_OF"));
    assert_eq!(r.get_namespace(), None);
    let ns = Reference::with_type("101", "user");
    assert_eq!(ns.get_namespace(), Some("user"));
    assert_eq!(ns.relationship_type(), None);
    assert!(!Reference::new("7").is_relationship());
}

#[test]
fn integer_limits() {
    assert_eq!(token_value("9223372036854775807"), Value::Int(i64::MAX));
    assert_eq!(token_value("-9223372036854775808"), Value::Int(i64::MIN));
    assert_eq!(
        token_value("9223372036854775808"),
        Value::Float("9223372036854775808".to_string())
    );
    assert_eq!(token_value("+5"), Value::Float("+5".to_string()));
    assert_eq!(token_value("-0"), Value::Int(0));
}

#[test]
fn float_grammar() {
    assert!(token_value(".5").is_float());
    assert!(token_value("5.").is_float());
    assert!(token_value("inf").is_float());
    assert!(token_value("-NaN").is_float());
    assert!(token_value("2E-3").is_float());
    assert!(token_value("1.2.3").is_string());
    assert!(token_value("e5").is_string());
    assert!(token_value("1e").is_string());
    assert!(token_value(".").is_string());
    for t in [".5", "5.", "inf", "-NaN", "2E-3", "1.2.3", "e5", "1e", "."] {
        assert_eq!(token_value(t).is_float(), t.parse::<f64>().is_ok());
    }
}

#[test]
fn quoted_tokens_stay_strings() {
    assert_eq!(token_value("\"true\""), Value::String("true".to_string()));
    assert_eq!(token_value("\"42\""), Value::String("42".to_string()));
    assert_eq!(token_value("\":x\""), Value::String(":x".to_string()));
    assert_eq!(token_value("\"a\\tb\\\"c\\\\\""), Value::String("a\tb\"c\\".to_string()));
    assert_eq!(token_value("\"unterminated"), Value::String("unterminated".to_string()));
}

#[test]
fn invalid_reference_is_an_error() {
    let err = parse("table.t\nv\n:a:b:c").unwrap_err();
    assert_eq!(err.message, "Invalid reference: :a:b:c");
    assert_eq!(err.line, Some(3));
}

#[test]
fn invalid_header_is_an_error() {
    let err = parse("no header here\nid").unwrap_err();
    assert_eq!(err.message, "Invalid block header: no header here");
    assert_eq!(err.line, Some(1));
    let err = parse("# c\n\n  .name\nid").unwrap_err();
    assert_eq!(err.line, Some(3));
    assert!(parse("table. \nid").is_err());
}

fn string_doc(s: &str) -> Document {
    let mut block = Block::new("table", "t");
    block.fields.push("v".to_string());
    block.field_info.push(FieldInfo::new("v"));
    let mut row = Row::new();
    row.insert("v".to_string(), Value::String(s.to_string()));
    block.rows.push(row);
    let mut doc = Document::new();
    doc.blocks.push(block);
    doc
}

#[test]
fn quoting_necessity() {
    for s in ["true", "false", "null", "a b", "42", "3.5", ":x", "tab\there", "q\"uote", "back\\slash", "line\nbreak"] {
        let text = dumps(&string_doc(s), true);
        let line = text.lines().nth(2).unwrap();
        assert!(line.starts_with('"') && line.ends_with('"'), "{}", line);
        let back = parse(&text).unwrap();
        assert_eq!(back.blocks[0].rows[0].get("v"), Some(&Value::String(s.to_string())));
    }
    let text = dumps(&string_doc("plain"), true);
    assert_eq!(text, "table.t\nv\nplain");
}

#[test]
fn missing_fields_read_as_absent_and_write_as_null() {
    let doc = parse("table.t\na b c\n1").unwrap();
    let row = &doc.blocks[0].rows[0];
    assert_eq!(row.get("a"), Some(&Value::Int(1)));
    assert_eq!(row.get("b"), None);
    assert_eq!(row.get("c"), None);
    assert_eq!(dumps(&doc, false), "table.t\na b c\n1 null null");
    let extra = parse("table.t\na\n1 2 3").unwrap();
    assert_eq!(dumps(&extra, false), "table.t\na\n1");
}

#[test]
fn isonl_equivalence() {
    let ison = parse("table.users\nid name\n1 Alice\n2 Bob").unwrap();
    let isonl = parse_isonl("table.users|id name|1 Alice\ntable.users|id name|2 Bob").unwrap();
    let a = ison.get("users").unwrap();
    let b = isonl.get("users").unwrap();
    assert_eq!(a.fields, b.fields);
    assert_eq!(a.len(), b.len());
    for i in 0..a.len() {
        for f in &a.fields {
            assert_eq!(a.rows[i].get(f), b.rows[i].get(f));
        }
    }
}

#[test]
fn end_to_end_example() {
    let text = "table.users\nid:int name active:bool\n1 Alice true\n2 \"Bob Smith\" false\n";
    let doc = parse(text).unwrap();
    let users = doc.get("users").unwrap();
    assert_eq!(users.fields, vec!["id", "name", "active"]);
    assert_eq!(users.field_info[0].field_type.as_deref(), Some("int"));
    assert_eq!(users.field_info[1].field_type, None);
    assert_eq!(users.field_info[2].field_type.as_deref(), Some("bool"));
    assert_eq!(users.get_field_type("active"), Some("bool"));
    assert_eq!(users.rows[0].get("id"), Some(&Value::Int(1)));
    assert_eq!(users.rows[0].get("name"), Some(&Value::String("Alice".to_string())));
    assert_eq!(users.rows[0].get("active"), Some(&Value::Bool(true)));
    assert_eq!(users.rows[1].get("id"), Some(&Value::Int(2)));
    assert_eq!(users.rows[1].get("name"), Some(&Value::String("Bob Smith".to_string())));
    assert_eq!(users.rows[1].get("active"), Some(&Value::Bool(false)));
    let out = dumps(&doc, true);
    assert_eq!(
        out,
        "table.users\nid:int name:bool active:bool\n1  Alice       true\n2  \"Bob Smith\" false"
            .replace("name:bool", "name")
    );
}

#[test]
fn duplicate_block_names() {
    let doc = parse("table.x\na\n1\n\ntable.x\na\n2").unwrap();
    assert_eq!(doc.len(), 2);
    let first = doc.get("x").unwrap();
    assert_eq!(first.rows[0].get("a"), Some(&Value::Int(1)));
    assert!(doc.has("x"));
    assert!(!doc.has("y"));
    assert!(doc.get("y").is_none());
}

#[test]
fn summary_rows_and_comments() {
    let text = "# leading comment\ntable.sales\nregion total\n# a comment\neast 10 # trailing\nwest 20\n---\nall 30\n";
    let doc = parse(text).unwrap();
    let b = &doc.blocks[0];
    assert_eq!(b.rows.len(), 2);
    assert_eq!(b.summary_rows.len(), 1);
    assert_eq!(b.rows[0].get("total"), Some(&Value::Int(10)));
    assert_eq!(b.summary_rows[0].get("region"), Some(&Value::String("all".to_string())));
    assert_eq!(dumps(&doc, false), "table.sales\nregion total\neast 10\nwest 20\n---\nall 30");
    assert_eq!(dumps(&doc, true), "table.sales\nregion total\neast   10\nwest   20\n---\nall    30");
}

#[test]
fn header_like_line_starts_next_block() {
    let doc = parse("table.a\nx\n1\ntable.b\ny\n2").unwrap();
    assert_eq!(doc.len(), 2);
    assert_eq!(doc.blocks[1].name, "b");
    assert_eq!(doc.blocks[1].rows[0].get("y"), Some(&Value::Int(2)));
}

#[test]
fn computed_fields() {
    let doc = parse("table.t\na b:computed c:int d:computed\n1 2 3 4").unwrap();
    let b = &doc.blocks[0];
    assert_eq!(b.get_computed_fields(), vec!["b".to_string(), "d".to_string()]);
    assert!(b.field_info[1].is_computed);
    assert!(!b.field_info[2].is_computed);
    assert!(FieldInfo::with_type("x", "computed").is_computed);
    assert!(!FieldInfo::new("x").is_computed);
}

#[test]
fn empty_input_and_header_only() {
    assert_eq!(parse("").unwrap().len(), 0);
    assert!(parse("  \n# only comments\n").unwrap().is_empty());
    let doc = parse("table.t").unwrap();
    assert_eq!(doc.blocks[0].fields.len(), 0);
    assert!(doc.blocks[0].is_empty());
    assert_eq!(dumps(&doc, true), "table.t\n");
}

#[test]
fn isonl_round_trip_and_conversion() {
    let doc = parse("table.users\nid name\n1 Alice\n2 \"Bob Smith\"").unwrap();
    let isonl = dumps_isonl(&doc);
    assert_eq!(isonl, "table.users|id name|1 Alice\ntable.users|id name|2 \"Bob Smith\"");
    assert_eq!(ison_to_isonl("table.users\nid name\n1 Alice\n2 \"Bob Smith\"").unwrap(), isonl);
    assert_eq!(isonl_to_ison(&isonl).unwrap(), "table.users\nid name\n1  Alice\n2  \"Bob Smith\"");
    assert_eq!(loads("table.a\nx\n1").unwrap().len(), 1);
}

#[test]
fn isonl_errors() {
    let err = parse_isonl("table.a|x").unwrap_err();
    assert_eq!(err.message, "Invalid ISONL line: table.a|x");
    assert_eq!(err.line, Some(1));
    let err = parse_isonl("\nnodot|x|1").unwrap_err();
    assert_eq!(err.message, "Invalid ISONL header: nodot");
    assert_eq!(err.line, Some(2));
    let err = parse_isonl("t.a|x|:a:b:c").unwrap_err();
    assert_eq!(err.message, "Invalid reference: :a:b:c");
}

#[test]
fn isonl_interleaved_blocks_keep_first_fields() {
    let doc = parse_isonl("t.a|x|1\nt.b|y|2\nt.a|z w|3").unwrap();
    assert_eq!(doc.len(), 2);
    let a = doc.get("a").unwrap();
    assert_eq!(a.fields, vec!["x"]);
    assert_eq!(a.rows.len(), 2);
    assert_eq!(a.rows[1].get("x"), Some(&Value::Int(3)));
}

#[test]
fn value_accessors() {
    assert_eq!(Value::Int(12).as_float(), Some("12".to_string()));
    assert_eq!(Value::Int(-12).as_float(), Some("-12".to_string()));
    assert_eq!(Value::Float("1.5".to_string()).as_float(), Some("1.5".to_string()));
    assert_eq!(Value::Null.as_float(), None);
    assert_eq!(Value::Bool(true).as_bool(), Some(true));
    assert_eq!(Value::Null.as_bool(), None);
    assert!(Value::Reference(Reference::new("1")).is_reference());
    assert!(!Value::Null.is_reference());
    assert_eq!(Reference::with_type("1", "user").to_ison(), ":user:1");
    assert_eq!(Reference::new("1").to_ison(), ":1");
    assert_eq!(dumps(&parse("t.a\nn\n-9223372036854775808").unwrap(), false), "t.a\nn\n-9223372036854775808");
}

#[test]
fn round_trip_keeps_values() {
    let text = "table.items\nid name:string price ref tag\n1 \"Big box\" 3.5 :sku:7 true\n2 \"null\" -4 :8\n---\n3 total 1e2 :T:1 ~\n\nmeta.info\nkey value\nversion \"1 2\"";
    let doc = parse(text).unwrap();
    let again = parse(&dumps(&doc, true)).unwrap();
    assert_eq!(again.len(), doc.len());
    for (a, b) in doc.blocks.iter().zip(again.blocks.iter()) {
        assert_eq!(a.kind, b.kind);
        assert_eq!(a.name, b.name);
        assert_eq!(a.fields, b.fields);
        assert_eq!(a.rows.len(), b.rows.len());
        assert_eq!(a.summary_rows.len(), b.summary_rows.len());
        let all_a = a.rows.iter().chain(a.summary_rows.iter());
        let all_b = b.rows.iter().chain(b.summary_rows.iter());
        for (ra, rb) in all_a.zip(all_b) {
            for f in &a.fields {
                let va = ra.get(f).cloned().unwrap_or(Value::Null);
                assert_eq!(Some(&va), rb.get(f));
            }
        }
    }
    let row = &again.blocks[0].rows[1];
    assert_eq!(row.get("name"), Some(&Value::String("null".to_string())));
    assert_eq!(row.get("tag"), Some(&Value::Null));
}

#[test]
fn header_like_row_breaks_the_round_trip() {
    let doc = parse("table.t\nname score\n\"Alice\" 3.5").unwrap();
    assert_eq!(doc.blocks[0].rows.len(), 1);
    let text = dumps(&doc, true);
    assert_eq!(text, "table.t\nname score\nAlice 3.5");
    let again = parse(&text).unwrap();
    assert_eq!(again.blocks[0].rows.len(), 0);
    assert_eq!(again.len(), 2);
}

#[test]
fn texts_of_errors_and_values() {
    let err = parse("x\nid").unwrap_err();
    assert_eq!(err.to_string(), "Line 1: Invalid block header: x");
    let plain = ison_rs::ISONError { message: "m".to_string(), line: None };
    assert_eq!(plain.to_string(), "m");
    assert_eq!(Value::String("a b".to_string()).to_string(), "a b");
    assert_eq!(Value::Int(-3).to_string(), "-3");
    assert_eq!(Value::Null.to_string(), "null");
    assert_eq!(Value::Reference(Reference::with_type("1", "u")).to_string(), ":u:1");
    assert_eq!(Reference::new("5").to_string(), ":5");
}

#[test]
fn get_mut_changes_the_first_block() {
    let mut doc = parse("table.x\na\n1\n\ntable.x\na\n2").unwrap();
    {
        let b = doc.get_mut("x").unwrap();
        let mut row = Row::new();
        row.insert("a".to_string(), Value::Int(9));
        b.rows.push(row);
    }
    assert_eq!(doc.blocks[0].rows.len(), 2);
    assert_eq!(doc.blocks[1].rows.len(), 1);
    assert!(doc.get_mut("nope").is_none());
    assert_eq!(doc.blocks[0].get_row(1).unwrap().get("a"), Some(&Value::Int(9)));
    assert!(doc.blocks[0].get_row(2).is_none());
}

#[test]
fn names_with_inner_spaces_round_trip() {
    let doc = parse("table.my users\nid\n1").unwrap();
    assert_eq!(doc.blocks[0].name, "my users");
    let again = parse(&dumps(&doc, true)).unwrap();
    assert_eq!(again.blocks[0].name, "my users");
    assert_eq!(again.blocks[0].rows[0].get("id"), Some(&Value::Int(1)));
    assert_eq!(dumps(&again, false), "table.my users\nid\n1");
}

#[test]
fn missing_cells_count_as_null_in_widths() {
    let mut block = Block::new("table", "t");
    for f in ["a", "b"] {
        block.fields.push(f.to_string());
        block.field_info.push(FieldInfo::new(f));
    }
    let mut r1 = Row::new();
    r1.insert("a".to_string(), Value::Int(1));
    r1.insert("b".to_string(), Value::Int(2));
    let mut r2 = Row::new();
    r2.insert("b".to_string(), Value::Int(3));
    block.rows.push(r1);
    block.rows.push(r2);
    let mut doc = Document::new();
    doc.blocks.push(block);
    assert_eq!(dumps(&doc, true), "table.t\na b\n1    2\nnull 3");
}

#[test]
fn escaped_backslash_closes_quote_for_comments() {
    let doc = parse("table.t\na b\n\"a\\\\\" \"b #c\" # gone").unwrap();
    let row = &doc.blocks[0].rows[0];
    assert_eq!(row.get("a"), Some(&Value::String("a\\".to_string())));
    assert_eq!(row.get("b"), Some(&Value::String("b #c".to_string())));
    let again = parse(&dumps(&doc, true)).unwrap();
    assert_eq!(again.blocks[0].rows[0].get("b"), Some(&Value::String("b #c".to_string())));
    let odd = parse("table.t\na\n\"x\\\"#y\"").unwrap();
    assert_eq!(odd.blocks[0].rows[0].get("a"), Some(&Value::String("x\"#y".to_string())));
}
