use ison_rs::{boolean, integer, not_empty, one_of, parse, reference, string, table};
use ison_rs::{FieldType, ISONReference, StringConstraints, ValidatedValue, ValidationError, Value};

fn users() -> ison_rs::Document {
    parse("table.users\nid name email active role\n1 Alice alice@example.com true admin\n2 Bob bob.example.com false guest\n3 \"\" c@d.e true admin").unwrap()
}

#[test]
fn schema_accepts_valid_rows() {
    let doc = parse("table.users\nid name email active\n1 Alice alice@example.com true\n").unwrap();
    let schema = table("users")
        .field(integer().required().build("id"))
        .field(string().min(1).max(100).build("name"))
        .field(string().email().build("email"))
        .field(boolean().default_value(true).build("active"))
        .field(boolean().default_value(false).build("missing"));
    let t = schema.validate(&doc).unwrap();
    assert_eq!(t.name, "users");
    assert_eq!(t.len(), 1);
    assert!(!t.is_empty());
    assert_eq!(t.rows[0].get_int("id"), Some(1));
    assert_eq!(t.rows[0].get_string("name"), Some("Alice"));
    assert_eq!(t.rows[0].get_bool("active"), Some(true));
    assert_eq!(t.rows[0].get_bool("missing"), Some(false));
}

#[test]
fn schema_reports_every_failing_field() {
    let mut name = string().min(1).build("name");
    name.validators.push(not_empty());
    let mut role = string().build("role");
    role.validators.push(one_of(vec!["admin", "user"]));
    let schema = table("users")
        .field(string().email().build("email"))
        .field(name)
        .field(role);
    let err = schema.validate(&users()).unwrap_err();
    let got: Vec<(String, String)> = err.errors.iter().map(|e| (e.field.clone(), e.message.clone())).collect();
    assert_eq!(
        got,
        vec![
            ("[1].email".to_string(), "Invalid email format".to_string()),
            ("[1].role".to_string(), "Value must be one of: \"admin\", \"user\"".to_string()),
            ("[2].name".to_string(), "String must be at least 1 characters".to_string()),
        ]
    );
}

#[test]
fn missing_table_and_required_field() {
    let err = table("nope").validate(&users()).unwrap_err();
    assert_eq!(err.errors[0].field, "");
    assert_eq!(err.errors[0].message, "Missing table: nope");
    let err = table("users").field(integer().required().build("age")).validate(&users()).unwrap_err();
    assert_eq!(err.errors.len(), 3);
    assert_eq!(err.errors[0].field, "[0].age");
    assert_eq!(err.errors[0].message, "Field is required");
}

#[test]
fn type_mismatches() {
    let doc = parse("table.t\na b c d\nx 5 :u:1 null").unwrap();
    let err = table("t")
        .field(integer().build("a"))
        .field(boolean().build("b"))
        .field(reference().required().build("c"))
        .validate(&doc)
        .unwrap_err();
    assert_eq!(err.errors.len(), 2);
    assert_eq!(err.errors[0].message, "Expected integer");
    assert_eq!(err.errors[1].message, "Expected boolean");
    let ok = table("t").field(reference().build("c")).validate(&doc).unwrap();
    let r = ok.rows[0].get("c").unwrap();
    assert_eq!(r, &ValidatedValue::Reference(ISONReference::with_type("1", "u")));
}

#[test]
fn int_constraints() {
    let doc = parse("table.t\nn\n5\n-3\n0").unwrap();
    let err = table("t").field(integer().min(-1).max(4).build("n")).validate(&doc).unwrap_err();
    assert_eq!(err.errors[0].message, "Value must be <= 4");
    assert_eq!(err.errors[1].message, "Value must be >= -1");
    let err = table("t").field(integer().positive().build("n")).validate(&doc).unwrap_err();
    assert_eq!(err.errors.len(), 2);
    assert_eq!(err.errors[0].field, "[1].n");
    assert_eq!(err.errors[0].message, "Value must be positive");
}

#[test]
fn float_field_takes_integers() {
    let doc = parse("table.t\nx\n2\n2.5\nabc").unwrap();
    let mut schema = table("t");
    schema.fields.push(ison_rs::FieldSchema::new("x", FieldType::Float));
    let err = schema.validate(&doc).unwrap_err();
    assert_eq!(err.errors.len(), 1);
    assert_eq!(err.errors[0].message, "Expected number");
    let ok = FieldType::Float.convert(&Value::Int(2), "x").unwrap();
    assert_eq!(ok, ValidatedValue::Float("2".to_string()));
}

#[test]
fn string_constraints_direct() {
    let c = StringConstraints { min_length: None, max_length: Some(3), pattern: None, email: false };
    assert!(c.validate("abc", "f").is_ok());
    let e = c.validate("abcd", "f").unwrap_err();
    assert_eq!(e.errors[0].message, "String must be at most 3 characters");
    let single = ValidationError::single("f", "m");
    assert_eq!(single.errors.len(), 1);
    assert_eq!(ValidationError::new(vec![]).errors.len(), 0);
    assert_eq!(ISONReference::new("9").to_ison(), ":9");
    assert_eq!(ISONReference::with_type("9", "T").to_ison(), ":T:9");
}

#[test]
fn validation_error_text() {
    let doc = parse("table.t\nn\nx\ny").unwrap();
    let err = table("t").field(integer().build("n")).validate(&doc).unwrap_err();
    assert_eq!(
        err.to_string(),
        "Validation failed with 2 error(s):\n  - [0].n: Expected integer\n  - [1].n: Expected integer"
    );
    assert_eq!(err.errors[0].to_string(), "[0].n: Expected integer");
}

#[test]
fn validated_value_accessors() {
    let doc = parse("table.t\nf n s r b\n2.5 7 hi :x true").unwrap();
    let t = table("t")
        .field(ison_rs::float().required().build("f"))
        .field(integer().build("n"))
        .field(string().build("s"))
        .field(reference().build("r"))
        .field(boolean().build("b"))
        .field(string().build("missing"))
        .validate(&doc)
        .unwrap();
    let row = &t.rows[0];
    assert_eq!(row.get("f").unwrap().as_float(), Some("2.5".to_string()));
    assert_eq!(row.get("n").unwrap().as_int(), Some(7));
    assert_eq!(row.get("n").unwrap().as_float(), Some("7".to_string()));
    assert_eq!(row.get("s").unwrap().as_str(), Some("hi"));
    assert_eq!(row.get("r").unwrap().as_reference().unwrap().id, "x");
    assert_eq!(row.get("b").unwrap().as_bool(), Some(true));
    assert!(row.get("missing").unwrap().is_null());
    assert!(!row.get("b").unwrap().is_null());
    assert_eq!(row.get_string("n"), None);
}

#[test]
fn field_errors_carry_no_value() {
    let doc = parse("table.t\nn m\nx").unwrap();
    let err = table("t")
        .field(integer().build("n"))
        .field(integer().required().build("m"))
        .validate(&doc)
        .unwrap_err();
    assert_eq!(err.errors.len(), 2);
    assert!(err.errors.iter().all(|e| e.value.is_none()));
    assert_eq!(err.errors[1].message, "Field is required");
}
