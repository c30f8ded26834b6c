//! Schemas that check the rows of a parsed block: per-field types,
//! constraints and validators, with every failing field reported.
use vstd::prelude::*;
use crate::text::{chars_of, push_char, push_str};
use crate::model::{Document, RefV, Row, Value, ValueV, i64_text, int_text, ref_text, chars_eq};

verus! {

/// One failing field: its name, the message, and optionally the value.
#[derive(Debug, Clone)]
pub struct FieldError {
    pub field: String,
    pub message: String,
    pub value: Option<String>,
}

/// Mathematical view of a field error: field and message.
pub open spec fn field_error_view(e: FieldError) -> (Seq<char>, Seq<char>) {
    (e.field@, e.message@)
}

/// A field error as text: `field: message`.
pub open spec fn field_error_text(e: (Seq<char>, Seq<char>)) -> Seq<char> {
    e.0 + ": "@ + e.1
}

impl FieldError {
    /// The error as text (see `field_error_text`).
    pub fn to_string(&self) -> (r: String)
        ensures
            r@ == field_error_text(field_error_view(*self)),
    {
        let mut out = self.field.clone();
        push_str(&mut out, ": ");
        out.append(self.message.as_str());
        out
    }
}

/// The text of the first `n` errors, one per line.
pub open spec fn errors_text(es: Seq<(Seq<char>, Seq<char>)>, n: int) -> Seq<char>
    decreases n,
{
    if n <= 0 {
        Seq::empty()
    } else {
        errors_text(es, n - 1) + "\n  - "@ + field_error_text(es[n - 1])
    }
}

/// A failed validation: one or more field errors, in the order found.
#[derive(Debug, Clone)]
pub struct ValidationError {
    pub errors: Vec<FieldError>,
}

impl View for ValidationError {
    type V = Seq<(Seq<char>, Seq<char>)>;

    open spec fn view(&self) -> Seq<(Seq<char>, Seq<char>)> {
        self.errors@.map_values(|e: FieldError| field_error_view(e))
    }
}

/// No field error of `e` carries a value.
pub open spec fn no_values(e: ValidationError) -> bool {
    forall|i: int| 0 <= i < e.errors@.len() ==> (#[trigger] e.errors@[i]).value is None
}

impl ValidationError {
    /// The error as text: a count, then each field error on a line.
    pub fn to_string(&self) -> (r: String)
        ensures
            r@ == "Validation failed with "@ + int_text(self.errors@.len() as int) + " error(s):"@
                + errors_text(self@, self@.len() as int),
    {
        let mut out = usize_message("Validation failed with ", self.errors.len(), " error(s):");
        let ghost base = out@;
        let mut i: usize = 0;
        while i < self.errors.len()
            invariant
                i <= self.errors.len(),
                out@ == base + errors_text(self@, i as int),
            decreases self.errors.len() - i,
        {
            push_str(&mut out, "\n  - ");
            let t = self.errors[i].to_string();
            out.append(t.as_str());
            proof {
                assert(self@[i as int] == field_error_view(self.errors@[i as int]));
                assert(out@ =~= base + errors_text(self@, i + 1));
            }
            i += 1;
        }
        out
    }

    pub fn new(errors: Vec<FieldError>) -> (r: ValidationError)
        ensures
            r.errors@ == errors@,
    {
        ValidationError { errors }
    }

    /// An error with a single field error.
    pub fn single(field: &str, message: &str) -> (r: ValidationError)
        ensures
            r@ == seq![(field@, message@)],
            no_values(r),
    {
        let e = FieldError {
            field: String::from_str(field),
            message: String::from_str(message),
            value: None,
        };
        let r = ValidationError { errors: vec![e] };
        proof {
            assert(r@ =~= seq![(field@, message@)]);
        }
        r
    }
}

fn single_owned(field: &str, message: String) -> (r: ValidationError)
    ensures
        r@ == seq![(field@, message@)],
        no_values(r),
{
    let e = FieldError { field: String::from_str(field), message, value: None };
    let r = ValidationError { errors: vec![e] };
    proof {
        assert(r@ =~= seq![(field@, message@)]);
    }
    r
}

/// A reference in a validated row.
#[derive(Debug, Clone, PartialEq)]
pub struct ISONReference {
    pub id: String,
    pub ref_type: Option<String>,
}

impl View for ISONReference {
    type V = RefV;

    open spec fn view(&self) -> RefV {
        RefV { id: self.id@, ref_type: crate::model::opt_view(self.ref_type) }
    }
}

impl ISONReference {
    pub fn new(id: &str) -> (r: ISONReference)
        ensures
            r@ == (RefV { id: id@, ref_type: None }),
    {
        ISONReference { id: String::from_str(id), ref_type: None }
    }

    pub fn with_type(id: &str, ref_type: &str) -> (r: ISONReference)
        ensures
            r@ == (RefV { id: id@, ref_type: Some(ref_type@) }),
    {
        ISONReference { id: String::from_str(id), ref_type: Some(String::from_str(ref_type)) }
    }

    /// `:id`, or `:type:id`.
    pub fn to_ison(&self) -> (r: String)
        ensures
            r@ == ref_text(self@),
    {
        let mut out = String::new();
        push_char(&mut out, ':');
        match &self.ref_type {
            Some(t) => {
                out.append(t.as_str());
                push_char(&mut out, ':');
            },
            None => {},
        }
        out.append(self.id.as_str());
        proof {
            assert(out@ =~= ref_text(self@));
        }
        out
    }
}

/// A value that passed validation.
#[derive(Debug, Clone, PartialEq)]
pub enum ValidatedValue {
    Null,
    Bool(bool),
    Int(i64),
    Float(String),
    String(String),
    Reference(ISONReference),
}

impl View for ValidatedValue {
    type V = ValueV;

    open spec fn view(&self) -> ValueV {
        match self {
            ValidatedValue::Null => ValueV::Null,
            ValidatedValue::Bool(b) => ValueV::Bool(*b),
            ValidatedValue::Int(i) => ValueV::Int(*i as int),
            ValidatedValue::Float(t) => ValueV::Float(t@),
            ValidatedValue::String(s) => ValueV::Str(s@),
            ValidatedValue::Reference(r) => ValueV::Ref(r@),
        }
    }
}

impl ValidatedValue {
    pub fn as_bool(&self) -> (r: Option<bool>)
        ensures
            r == (match self@ {
                ValueV::Bool(b) => Some(b),
                _ => None,
            }),
    {
        match self {
            ValidatedValue::Bool(b) => Some(*b),
            _ => None,
        }
    }

    pub fn as_int(&self) -> (r: Option<i64>)
        ensures
            match self@ {
                ValueV::Int(i) => r == Some(i as i64),
                _ => r is None,
            },
    {
        match self {
            ValidatedValue::Int(i) => Some(*i),
            _ => None,
        }
    }

    /// The decimal text of a number: a float's literal, or an integer's
    /// digits.
    pub fn as_float(&self) -> (r: Option<String>)
        ensures
            match self@ {
                ValueV::Float(t) => r is Some && r->0@ == t,
                ValueV::Int(i) => r is Some && r->0@ == int_text(i),
                _ => r is None,
            },
    {
        match self {
            ValidatedValue::Float(t) => Some(copy_string(t)),
            ValidatedValue::Int(i) => Some(i64_text(*i)),
            _ => None,
        }
    }

    pub fn as_str(&self) -> (r: Option<&str>)
        ensures
            match self@ {
                ValueV::Str(s) => r is Some && r->0@ == s,
                _ => r is None,
            },
    {
        match self {
            ValidatedValue::String(s) => Some(s.as_str()),
            _ => None,
        }
    }

    pub fn as_reference(&self) -> (r: Option<&ISONReference>)
        ensures
            match self@ {
                ValueV::Ref(x) => r is Some && r->0@ == x,
                _ => r is None,
            },
    {
        match self {
            ValidatedValue::Reference(x) => Some(x),
            _ => None,
        }
    }

    pub fn is_null(&self) -> (r: bool)
        ensures
            r == (self@ is Null),
    {
        match self {
            ValidatedValue::Null => true,
            _ => false,
        }
    }
}

/// Constraints on a string field. `pattern` is carried along and not
/// checked.
#[derive(Debug, Clone)]
pub struct StringConstraints {
    pub min_length: Option<usize>,
    pub max_length: Option<usize>,
    pub pattern: Option<String>,
    pub email: bool,
}

/// The message of the first string constraint that `s` breaks, if any.
pub open spec fn string_check(c: StringConstraints, s: Seq<char>) -> Option<Seq<char>> {
    if c.min_length is Some && s.len() < c.min_length->0 {
        Some("String must be at least "@ + int_text(c.min_length->0 as int) + " characters"@)
    } else if c.max_length is Some && s.len() > c.max_length->0 {
        Some("String must be at most "@ + int_text(c.max_length->0 as int) + " characters"@)
    } else if c.email && !s.contains('@') {
        Some("Invalid email format"@)
    } else {
        None
    }
}

/// The error that carries `message` for `field`.
pub open spec fn single_error(field: Seq<char>, message: Seq<char>) -> Seq<(Seq<char>, Seq<char>)> {
    seq![(field, message)]
}

fn usize_message(prefix: &str, n: usize, suffix: &str) -> (r: String)
    ensures
        r@ == prefix@ + int_text(n as int) + suffix@,
{
    let mut m = String::from_str(prefix);
    let d = crate::model::u64_text(n as u64);
    m.append(d.as_str());
    push_str(&mut m, suffix);
    m
}

} // verus!

verus! {

impl StringConstraints {
    /// Checks a string: its length in characters against the bounds, and
    /// for an email field that it holds `@`.
    pub fn validate(&self, value: &str, field: &str) -> (r: Result<(), ValidationError>)
        ensures
            match string_check(*self, value@) {
                None => r is Ok,
                Some(m) => r is Err && r->Err_0@ == single_error(field@, m) && no_values(r->Err_0),
            },
    {
        let c = chars_of(value);
        match self.min_length {
            Some(min) => if c.len() < min {
                let m = usize_message("String must be at least ", min, " characters");
                return Err(single_owned(field, m));
            },
            None => {},
        }
        match self.max_length {
            Some(max) => if c.len() > max {
                let m = usize_message("String must be at most ", max, " characters");
                return Err(single_owned(field, m));
            },
            None => {},
        }
        if self.email && !crate::parser::contains_char(&c, '@') {
            return Err(ValidationError::single(field, "Invalid email format"));
        }
        Ok(())
    }
}

/// Constraints on an integer field.
#[derive(Debug, Clone, Copy)]
pub struct IntConstraints {
    pub min: Option<i64>,
    pub max: Option<i64>,
    pub positive: bool,
    pub negative: bool,
}

/// The message of the first integer constraint that `v` breaks, if any.
pub open spec fn int_check(c: IntConstraints, v: int) -> Option<Seq<char>> {
    if c.min is Some && v < c.min->0 {
        Some("Value must be >= "@ + int_text(c.min->0 as int))
    } else if c.max is Some && v > c.max->0 {
        Some("Value must be <= "@ + int_text(c.max->0 as int))
    } else if c.positive && v <= 0 {
        Some("Value must be positive"@)
    } else if c.negative && v >= 0 {
        Some("Value must be negative"@)
    } else {
        None
    }
}

fn int_message(prefix: &str, n: i64) -> (r: String)
    ensures
        r@ == prefix@ + int_text(n as int),
{
    let mut m = String::from_str(prefix);
    let t = i64_text(n);
    m.append(t.as_str());
    m
}

impl IntConstraints {
    /// Checks an integer against the bounds and the sign.
    pub fn validate_int(&self, value: i64, field: &str) -> (r: Result<(), ValidationError>)
        ensures
            match int_check(*self, value as int) {
                None => r is Ok,
                Some(m) => r is Err && r->Err_0@ == single_error(field@, m) && no_values(r->Err_0),
            },
    {
        match self.min {
            Some(min) => if value < min {
                return Err(single_owned(field, int_message("Value must be >= ", min)));
            },
            None => {},
        }
        match self.max {
            Some(max) => if value > max {
                return Err(single_owned(field, int_message("Value must be <= ", max)));
            },
            None => {},
        }
        if self.positive && value <= 0 {
            return Err(ValidationError::single(field, "Value must be positive"));
        }
        if self.negative && value >= 0 {
            return Err(ValidationError::single(field, "Value must be negative"));
        }
        Ok(())
    }
}

/// Accepts any value but the empty string.
#[derive(Debug, Clone, Copy)]
pub struct NotEmptyValidator;

/// Accepts a string only if it is one of `allowed`; other values pass.
#[derive(Debug, Clone)]
pub struct OneOfValidator {
    pub allowed: Vec<String>,
}

impl OneOfValidator {
    pub fn new(allowed: Vec<String>) -> (r: OneOfValidator)
        ensures
            r.allowed@ == allowed@,
    {
        OneOfValidator { allowed }
    }
}

/// The validators that a field can carry.
#[derive(Debug, Clone)]
pub enum Validator {
    NotEmpty(NotEmptyValidator),
    OneOf(OneOfValidator),
}

pub open spec fn one_of_message(allowed: Seq<Seq<char>>) -> Seq<char> {
    "Value must be one of: "@ + crate::serializer::join(
        allowed.map_values(|a: Seq<char>| seq!['"'] + a + seq!['"']),
        ", "@,
    )
}

/// The message of a validator that rejects `v`, if it does.
pub open spec fn validator_check(val: Validator, v: ValueV) -> Option<Seq<char>> {
    match val {
        Validator::NotEmpty(_) => match v {
            ValueV::Str(s) => if s.len() == 0 {
                Some("String cannot be empty"@)
            } else {
                None
            },
            _ => None,
        },
        Validator::OneOf(o) => match v {
            ValueV::Str(s) => if crate::model::strings_view(o.allowed@).contains(s) {
                None
            } else {
                Some(one_of_message(crate::model::strings_view(o.allowed@)))
            },
            _ => None,
        },
    }
}

impl Validator {
    /// Runs the validator on a value of `field`.
    pub fn validate(&self, value: &ValidatedValue, field: &str) -> (r: Result<(), ValidationError>)
        ensures
            match validator_check(*self, value@) {
                None => r is Ok,
                Some(m) => r is Err && r->Err_0@ == single_error(field@, m) && no_values(r->Err_0),
            },
    {
        match self {
            Validator::NotEmpty(_) => match value {
                ValidatedValue::String(s) => {
                    let c = chars_of(s.as_str());
                    if c.len() == 0 {
                        Err(ValidationError::single(field, "String cannot be empty"))
                    } else {
                        Ok(())
                    }
                },
                _ => Ok(()),
            },
            Validator::OneOf(o) => match value {
                ValidatedValue::String(s) => {
                    let ghost allowed = crate::model::strings_view(o.allowed@);
                    let ghost expected = validator_check(*self, value@);
                    proof {
                        assert(expected == if allowed.contains(s@) {
                            None
                        } else {
                            Some(one_of_message(allowed))
                        });
                    }
                    let mut i: usize = 0;
                    while i < o.allowed.len()
                        invariant
                            i <= o.allowed.len(),
                            allowed == crate::model::strings_view(o.allowed@),
                            expected == validator_check(*self, value@),
                            expected == if allowed.contains(s@) {
                                None
                            } else {
                                Some(one_of_message(allowed))
                            },
                            forall|k: int| 0 <= k < i ==> allowed[k] != s@,
                        decreases o.allowed.len() - i,
                    {
                        if o.allowed[i] == *s {
                            proof {
                                assert(allowed[i as int] == s@);
                                assert(allowed.contains(s@));
                            }
                            return Ok(());
                        }
                        i += 1;
                    }
                    let mut m = String::from_str("Value must be one of: ");
                    let ghost parts = allowed.map_values(|a: Seq<char>| seq!['"'] + a + seq!['"']);
                    let ghost base = m@;
                    let mut j: usize = 0;
                    proof {
                        assert(parts.take(0) =~= Seq::<Seq<char>>::empty());
                    }
                    while j < o.allowed.len()
                        invariant
                            j <= o.allowed.len(),
                            allowed == crate::model::strings_view(o.allowed@),
                            parts == allowed.map_values(|a: Seq<char>| seq!['"'] + a + seq!['"']),
                            m@ == base + crate::serializer::join(parts.take(j as int), ", "@),
                        decreases o.allowed.len() - j,
                    {
                        if j > 0 {
                            push_str(&mut m, ", ");
                        }
                        push_char(&mut m, '"');
                        m.append(o.allowed[j].as_str());
                        push_char(&mut m, '"');
                        proof {
                            crate::serializer::lemma_join_push(parts.take(j as int), ", "@, parts[j as int]);
                            assert(parts.take(j + 1) =~= parts.take(j as int).push(parts[j as int]));
                            assert(m@ =~= base + crate::serializer::join(parts.take(j + 1), ", "@));
                        }
                        j += 1;
                    }
                    proof {
                        assert(parts.take(j as int) =~= parts);
                        assert(!allowed.contains(s@));
                    }
                    Err(single_owned(field, m))
                },
                _ => Ok(()),
            },
        }
    }
}

/// A validator that rejects the empty string.
pub fn not_empty() -> (r: Validator)
    ensures
        r is NotEmpty,
{
    Validator::NotEmpty(NotEmptyValidator)
}

/// A validator that accepts only the given strings.
pub fn one_of(allowed: Vec<&str>) -> (r: Validator)
    ensures
        match r {
            Validator::OneOf(o) => crate::model::strings_view(o.allowed@) == allowed@.map_values(|a: &str| a@),
            _ => false,
        },
{
    let mut v: Vec<String> = Vec::new();
    let mut i: usize = 0;
    while i < allowed.len()
        invariant
            i <= allowed.len(),
            crate::model::strings_view(v@) == allowed@.take(i as int).map_values(|a: &str| a@),
        decreases allowed.len() - i,
    {
        let ghost prev = crate::model::strings_view(v@);
        let a = String::from_str(allowed[i]);
        let ghost av = a@;
        v.push(a);
        i += 1;
        proof {
            assert(av == allowed@[i - 1]@);
            assert(crate::model::strings_view(v@) =~= prev.push(av));
            assert(allowed@.take(i as int).drop_last() =~= allowed@.take(i - 1));
            assert(crate::model::strings_view(v@) =~= allowed@.take(i as int).map_values(|a: &str| a@));
        }
    }
    proof {
        assert(allowed@.take(i as int) =~= allowed@);
    }
    Validator::OneOf(OneOfValidator::new(v))
}

} // verus!

verus! {

/// The type that a schema field expects.
#[derive(Debug, Clone)]
pub enum FieldType {
    String(StringConstraints),
    Int(IntConstraints),
    Float,
    Bool,
    Reference,
    Null,
}

/// The validated form of a value of type `ft`, or the message of the
/// mismatch. A float field also takes an integer, as its decimal text.
pub open spec fn convert(ft: FieldType, v: ValueV) -> Result<ValueV, Seq<char>> {
    match ft {
        FieldType::String(c) => match v {
            ValueV::Str(s) => match string_check(c, s) {
                None => Ok(ValueV::Str(s)),
                Some(m) => Err(m),
            },
            _ => Err("Expected string"@),
        },
        FieldType::Int(c) => match v {
            ValueV::Int(i) => match int_check(c, i) {
                None => Ok(ValueV::Int(i)),
                Some(m) => Err(m),
            },
            _ => Err("Expected integer"@),
        },
        FieldType::Float => match v {
            ValueV::Float(t) => Ok(ValueV::Float(t)),
            ValueV::Int(i) => Ok(ValueV::Float(int_text(i))),
            _ => Err("Expected number"@),
        },
        FieldType::Bool => match v {
            ValueV::Bool(b) => Ok(ValueV::Bool(b)),
            _ => Err("Expected boolean"@),
        },
        FieldType::Reference => match v {
            ValueV::Ref(r) => Ok(ValueV::Ref(r)),
            _ => Err("Expected reference"@),
        },
        FieldType::Null => match v {
            ValueV::Null => Ok(ValueV::Null),
            _ => Err("Expected null"@),
        },
    }
}

fn copy_string(s: &String) -> (r: String)
    ensures
        r@ == s@,
{
    s.clone()
}

fn copy_opt_string(s: &Option<String>) -> (r: Option<String>)
    ensures
        crate::model::opt_view(r) == crate::model::opt_view(*s),
{
    match s {
        Some(t) => Some(t.clone()),
        None => None,
    }
}

fn copy_validated(v: &ValidatedValue) -> (r: ValidatedValue)
    ensures
        r@ == v@,
{
    match v {
        ValidatedValue::Null => ValidatedValue::Null,
        ValidatedValue::Bool(b) => ValidatedValue::Bool(*b),
        ValidatedValue::Int(i) => ValidatedValue::Int(*i),
        ValidatedValue::Float(t) => ValidatedValue::Float(copy_string(t)),
        ValidatedValue::String(s) => ValidatedValue::String(copy_string(s)),
        ValidatedValue::Reference(x) => ValidatedValue::Reference(
            ISONReference { id: copy_string(&x.id), ref_type: copy_opt_string(&x.ref_type) },
        ),
    }
}

impl FieldType {
    /// Converts a value to this type (see `convert`).
    pub fn convert(&self, value: &Value, field: &str) -> (r: Result<ValidatedValue, ValidationError>)
        ensures
            match convert(*self, value@) {
                Ok(v) => r is Ok && r->Ok_0@ == v,
                Err(m) => r is Err && r->Err_0@ == single_error(field@, m) && no_values(r->Err_0),
            },
    {
        match self {
            FieldType::String(c) => match value {
                Value::String(s) => {
                    c.validate(s.as_str(), field)?;
                    Ok(ValidatedValue::String(copy_string(s)))
                },
                _ => Err(ValidationError::single(field, "Expected string")),
            },
            FieldType::Int(c) => match value {
                Value::Int(i) => {
                    c.validate_int(*i, field)?;
                    Ok(ValidatedValue::Int(*i))
                },
                _ => Err(ValidationError::single(field, "Expected integer")),
            },
            FieldType::Float => match value {
                Value::Float(t) => Ok(ValidatedValue::Float(copy_string(t))),
                Value::Int(i) => Ok(ValidatedValue::Float(i64_text(*i))),
                _ => Err(ValidationError::single(field, "Expected number")),
            },
            FieldType::Bool => match value {
                Value::Bool(b) => Ok(ValidatedValue::Bool(*b)),
                _ => Err(ValidationError::single(field, "Expected boolean")),
            },
            FieldType::Reference => match value {
                Value::Reference(x) => Ok(
                    ValidatedValue::Reference(
                        ISONReference { id: copy_string(&x.id), ref_type: copy_opt_string(&x.ref_type) },
                    ),
                ),
                _ => Err(ValidationError::single(field, "Expected reference")),
            },
            FieldType::Null => match value {
                Value::Null => Ok(ValidatedValue::Null),
                _ => Err(ValidationError::single(field, "Expected null")),
            },
        }
    }
}

/// Schema of one field: its type, whether it must be present, its default,
/// and its validators.
#[derive(Debug, Clone)]
pub struct FieldSchema {
    pub name: String,
    pub field_type: FieldType,
    pub required: bool,
    pub default: Option<ValidatedValue>,
    pub validators: Vec<Validator>,
}

/// The message of the first validator among `vs` that rejects `v`.
pub open spec fn validators_check(vs: Seq<Validator>, v: ValueV) -> Option<Seq<char>>
    decreases vs.len(),
{
    if vs.len() == 0 {
        None
    } else {
        match validator_check(vs[0], v) {
            Some(m) => Some(m),
            None => validators_check(vs.drop_first(), v),
        }
    }
}

/// The validated value of a field, from the row's value if it has one; or
/// the message of the failure.
pub open spec fn schema_check(s: FieldSchema, v: Option<ValueV>) -> Result<ValueV, Seq<char>> {
    match v {
        None => match s.default {
            Some(d) => Ok(d@),
            None => if s.required {
                Err("Field is required"@)
            } else {
                Ok(ValueV::Null)
            },
        },
        Some(x) => match convert(s.field_type, x) {
            Err(m) => Err(m),
            Ok(c) => match validators_check(s.validators@, c) {
                Some(m) => Err(m),
                None => Ok(c),
            },
        },
    }
}

impl FieldSchema {
    pub fn new(name: &str, field_type: FieldType) -> (r: FieldSchema)
        ensures
            r.name@ == name@,
            r.field_type == field_type,
            !r.required,
            r.default is None,
            r.validators@.len() == 0,
    {
        FieldSchema {
            name: String::from_str(name),
            field_type,
            required: false,
            default: None,
            validators: Vec::new(),
        }
    }

    /// Validates the value that a row holds for this field, if any (see
    /// `schema_check`).
    pub fn validate(&self, value: Option<&Value>) -> (r: Result<ValidatedValue, ValidationError>)
        ensures
            match schema_check(*self, match value {
                Some(v) => Some(v@),
                None => None,
            }) {
                Ok(v) => r is Ok && r->Ok_0@ == v,
                Err(m) => r is Err && r->Err_0@ == single_error(self.name@, m) && no_values(r->Err_0),
            },
    {
        let present = match value {
            Some(v) => v,
            None => {
                match &self.default {
                    Some(d) => {
                        return Ok(copy_validated(d));
                    },
                    None => {},
                }
                if self.required {
                    return Err(ValidationError::single(self.name.as_str(), "Field is required"));
                }
                return Ok(ValidatedValue::Null);
            },
        };
        let validated = self.field_type.convert(present, self.name.as_str())?;
        let ghost vs = self.validators@;
        let mut i: usize = 0;
        proof {
            assert(vs.subrange(0, vs.len() as int) =~= vs);
        }
        while i < self.validators.len()
            invariant
                i <= self.validators.len(),
                vs == self.validators@,
                value == Some(present),
                schema_check(*self, Some(present@)) == match validators_check(vs, validated@) {
                    Some(m) => Err(m),
                    None => Ok(validated@),
                },
                validators_check(vs, validated@) == validators_check(vs.subrange(i as int, vs.len() as int), validated@),
            decreases self.validators.len() - i,
        {
            proof {
                let rest = vs.subrange(i as int, vs.len() as int);
                assert(rest[0] == vs[i as int]);
                assert(rest.drop_first() =~= vs.subrange(i + 1, vs.len() as int));
            }
            self.validators[i].validate(&validated, self.name.as_str())?;
            i += 1;
        }
        proof {
            assert(vs.subrange(i as int, vs.len() as int) =~= Seq::<Validator>::empty());
        }
        Ok(validated)
    }
}

} // verus!

verus! {

/// A row of validated values, by field name.
#[derive(Debug, Clone)]
pub struct ValidatedRow {
    fields: Vec<(String, ValidatedValue)>,
}

pub open spec fn validated_entries_view(s: Seq<(String, ValidatedValue)>) -> Seq<(Seq<char>, ValueV)> {
    s.map_values(|e: (String, ValidatedValue)| (e.0@, e.1@))
}

impl View for ValidatedRow {
    type V = Map<Seq<char>, ValueV>;

    closed spec fn view(&self) -> Map<Seq<char>, ValueV> {
        crate::model::pairs_map(validated_entries_view(self.fields@))
    }
}

impl ValidatedRow {
    pub fn new() -> (r: ValidatedRow)
        ensures
            r@ == Map::<Seq<char>, ValueV>::empty(),
    {
        let r = ValidatedRow { fields: Vec::new() };
        proof {
            assert(validated_entries_view(r.fields@) =~= Seq::empty());
        }
        r
    }

    /// Sets the value of a field.
    pub fn insert(&mut self, field: String, value: ValidatedValue)
        ensures
            final(self)@ == old(self)@.insert(field@, value@),
    {
        self.fields.push((field, value));
        proof {
            assert(validated_entries_view(self.fields@).drop_last() =~= validated_entries_view(
                old(self).fields@,
            ));
        }
    }

    /// The value of a field.
    pub fn get(&self, field: &str) -> (r: Option<&ValidatedValue>)
        ensures
            match r {
                Some(v) => self@.contains_key(field@) && self@[field@] == v@,
                None => !self@.contains_key(field@),
            },
    {
        let key = chars_of(field);
        let ghost ev = validated_entries_view(self.fields@);
        let mut i: usize = self.fields.len();
        while i > 0
            invariant
                i <= self.fields.len(),
                key@ == field@,
                ev == validated_entries_view(self.fields@),
                forall|m: int| i <= m < self.fields.len() ==> (#[trigger] ev[m]).0 != field@,
            decreases i,
        {
            let k = chars_of(self.fields[i - 1].0.as_str());
            if chars_eq(&k, &key) {
                proof {
                    crate::model::lemma_pairs_map_last(ev, field@, i - 1);
                }
                return Some(&self.fields[i - 1].1);
            }
            i -= 1;
        }
        proof {
            crate::model::lemma_pairs_map_absent(ev, field@);
        }
        None
    }

    pub fn get_string(&self, field: &str) -> (r: Option<&str>)
        ensures
            match r {
                Some(s) => self@.contains_key(field@) && self@[field@] == ValueV::Str(s@),
                None => !(self@.contains_key(field@) && self@[field@] is Str),
            },
    {
        match self.get(field) {
            Some(ValidatedValue::String(s)) => Some(s.as_str()),
            _ => None,
        }
    }

    pub fn get_int(&self, field: &str) -> (r: Option<i64>)
        ensures
            match r {
                Some(i) => self@.contains_key(field@) && self@[field@] == ValueV::Int(i as int),
                None => !(self@.contains_key(field@) && self@[field@] is Int),
            },
    {
        match self.get(field) {
            Some(ValidatedValue::Int(i)) => Some(*i),
            _ => None,
        }
    }

    pub fn get_bool(&self, field: &str) -> (r: Option<bool>)
        ensures
            match r {
                Some(b) => self@.contains_key(field@) && self@[field@] == ValueV::Bool(b),
                None => !(self@.contains_key(field@) && self@[field@] is Bool),
            },
    {
        match self.get(field) {
            Some(ValidatedValue::Bool(b)) => Some(*b),
            _ => None,
        }
    }
}

/// The validated rows of one table.
#[derive(Debug, Clone)]
pub struct ValidatedTable {
    pub name: String,
    pub rows: Vec<ValidatedRow>,
}

impl ValidatedTable {
    pub fn new(name: &str) -> (r: ValidatedTable)
        ensures
            r.name@ == name@,
            r.rows.len() == 0,
    {
        ValidatedTable { name: String::from_str(name), rows: Vec::new() }
    }

    pub fn len(&self) -> (r: usize)
        ensures
            r == self.rows.len(),
    {
        self.rows.len()
    }

    pub fn is_empty(&self) -> (r: bool)
        ensures
            r == (self.rows.len() == 0),
    {
        self.rows.len() == 0
    }
}

/// Builder of a string field.
#[derive(Debug, Clone)]
pub struct StringFieldBuilder {
    pub constraints: StringConstraints,
    pub required: bool,
    pub default: Option<String>,
}

impl StringFieldBuilder {
    pub fn new() -> (r: StringFieldBuilder)
        ensures
            r.constraints.min_length is None,
            r.constraints.max_length is None,
            r.constraints.pattern is None,
            !r.constraints.email,
            !r.required,
            r.default is None,
    {
        StringFieldBuilder {
            constraints: StringConstraints { min_length: None, max_length: None, pattern: None, email: false },
            required: false,
            default: None,
        }
    }

    /// Sets the least length.
    pub fn min(self, len: usize) -> (r: StringFieldBuilder)
        ensures
            r == (StringFieldBuilder {
                constraints: StringConstraints { min_length: Some(len), ..self.constraints },
                ..self
            }),
    {
        let mut b = self;
        b.constraints.min_length = Some(len);
        b
    }

    /// Sets the greatest length.
    pub fn max(self, len: usize) -> (r: StringFieldBuilder)
        ensures
            r == (StringFieldBuilder {
                constraints: StringConstraints { max_length: Some(len), ..self.constraints },
                ..self
            }),
    {
        let mut b = self;
        b.constraints.max_length = Some(len);
        b
    }

    /// Requires an `@` in the value.
    pub fn email(self) -> (r: StringFieldBuilder)
        ensures
            r == (StringFieldBuilder {
                constraints: StringConstraints { email: true, ..self.constraints },
                ..self
            }),
    {
        let mut b = self;
        b.constraints.email = true;
        b
    }

    pub fn required(self) -> (r: StringFieldBuilder)
        ensures
            r == (StringFieldBuilder { required: true, ..self }),
    {
        let mut b = self;
        b.required = true;
        b
    }

    /// The value that a missing field takes.
    pub fn default_value(self, value: &str) -> (r: StringFieldBuilder)
        ensures
            r.constraints == self.constraints,
            r.required == self.required,
            r.default is Some && r.default->0@ == value@,
    {
        let mut b = self;
        b.default = Some(String::from_str(value));
        b
    }

    /// The schema of field `name`.
    pub fn build(self, name: &str) -> (r: FieldSchema)
        ensures
            r.name@ == name@,
            r.field_type == FieldType::String(self.constraints),
            r.required == self.required,
            match self.default {
                Some(d) => r.default is Some && r.default->0@ == ValueV::Str(d@),
                None => r.default is None,
            },
            r.validators@.len() == 0,
    {
        let mut schema = FieldSchema::new(name, FieldType::String(self.constraints));
        schema.required = self.required;
        schema.default = match self.default {
            Some(d) => Some(ValidatedValue::String(d)),
            None => None,
        };
        schema
    }
}

/// Builder of an integer field.
#[derive(Debug, Clone)]
pub struct IntFieldBuilder {
    pub constraints: IntConstraints,
    pub required: bool,
    pub default: Option<i64>,
}

impl IntFieldBuilder {
    pub fn new() -> (r: IntFieldBuilder)
        ensures
            r.constraints == (IntConstraints { min: None, max: None, positive: false, negative: false }),
            !r.required,
            r.default is None,
    {
        IntFieldBuilder {
            constraints: IntConstraints { min: None, max: None, positive: false, negative: false },
            required: false,
            default: None,
        }
    }

    pub fn min(self, value: i64) -> (r: IntFieldBuilder)
        ensures
            r == (IntFieldBuilder { constraints: IntConstraints { min: Some(value), ..self.constraints }, ..self }),
    {
        let mut b = self;
        b.constraints.min = Some(value);
        b
    }

    pub fn max(self, value: i64) -> (r: IntFieldBuilder)
        ensures
            r == (IntFieldBuilder { constraints: IntConstraints { max: Some(value), ..self.constraints }, ..self }),
    {
        let mut b = self;
        b.constraints.max = Some(value);
        b
    }

    pub fn positive(self) -> (r: IntFieldBuilder)
        ensures
            r == (IntFieldBuilder { constraints: IntConstraints { positive: true, ..self.constraints }, ..self }),
    {
        let mut b = self;
        b.constraints.positive = true;
        b
    }

    pub fn required(self) -> (r: IntFieldBuilder)
        ensures
            r == (IntFieldBuilder { required: true, ..self }),
    {
        let mut b = self;
        b.required = true;
        b
    }

    pub fn default_value(self, value: i64) -> (r: IntFieldBuilder)
        ensures
            r == (IntFieldBuilder { default: Some(value), ..self }),
    {
        let mut b = self;
        b.default = Some(value);
        b
    }

    pub fn build(self, name: &str) -> (r: FieldSchema)
        ensures
            r.name@ == name@,
            r.field_type == FieldType::Int(self.constraints),
            r.required == self.required,
            match self.default {
                Some(d) => r.default is Some && r.default->0@ == ValueV::Int(d as int),
                None => r.default is None,
            },
            r.validators@.len() == 0,
    {
        let mut schema = FieldSchema::new(name, FieldType::Int(self.constraints));
        schema.required = self.required;
        schema.default = match self.default {
            Some(d) => Some(ValidatedValue::Int(d)),
            None => None,
        };
        schema
    }
}

/// Builder of a boolean field.
#[derive(Debug, Clone, Copy)]
pub struct BoolFieldBuilder {
    pub required: bool,
    pub default: Option<bool>,
}

impl BoolFieldBuilder {
    pub fn new() -> (r: BoolFieldBuilder)
        ensures
            !r.required,
            r.default is None,
    {
        BoolFieldBuilder { required: false, default: None }
    }

    pub fn required(self) -> (r: BoolFieldBuilder)
        ensures
            r == (BoolFieldBuilder { required: true, ..self }),
    {
        BoolFieldBuilder { required: true, ..self }
    }

    pub fn default_value(self, value: bool) -> (r: BoolFieldBuilder)
        ensures
            r == (BoolFieldBuilder { default: Some(value), ..self }),
    {
        BoolFieldBuilder { default: Some(value), ..self }
    }

    pub fn build(self, name: &str) -> (r: FieldSchema)
        ensures
            r.name@ == name@,
            r.field_type == FieldType::Bool,
            r.required == self.required,
            match self.default {
                Some(d) => r.default is Some && r.default->0@ == ValueV::Bool(d),
                None => r.default is None,
            },
            r.validators@.len() == 0,
    {
        let mut schema = FieldSchema::new(name, FieldType::Bool);
        schema.required = self.required;
        schema.default = match self.default {
            Some(d) => Some(ValidatedValue::Bool(d)),
            None => None,
        };
        schema
    }
}

/// Builder of a reference field.
#[derive(Debug, Clone, Copy)]
pub struct RefFieldBuilder {
    pub required: bool,
}

impl RefFieldBuilder {
    pub fn new() -> (r: RefFieldBuilder)
        ensures
            !r.required,
    {
        RefFieldBuilder { required: false }
    }

    pub fn required(self) -> (r: RefFieldBuilder)
        ensures
            r.required,
    {
        RefFieldBuilder { required: true }
    }

    pub fn build(self, name: &str) -> (r: FieldSchema)
        ensures
            r.name@ == name@,
            r.field_type == FieldType::Reference,
            r.required == self.required,
            r.default is None,
            r.validators@.len() == 0,
    {
        let mut schema = FieldSchema::new(name, FieldType::Reference);
        schema.required = self.required;
        schema
    }
}

/// Builder of a float field; an integer value is taken as its decimal text.
#[derive(Debug, Clone, Copy)]
pub struct FloatFieldBuilder {
    pub required: bool,
}

impl FloatFieldBuilder {
    pub fn new() -> (r: FloatFieldBuilder)
        ensures
            !r.required,
    {
        FloatFieldBuilder { required: false }
    }

    pub fn required(self) -> (r: FloatFieldBuilder)
        ensures
            r.required,
    {
        FloatFieldBuilder { required: true }
    }

    pub fn build(self, name: &str) -> (r: FieldSchema)
        ensures
            r.name@ == name@,
            r.field_type == FieldType::Float,
            r.required == self.required,
            r.default is None,
            r.validators@.len() == 0,
    {
        let mut schema = FieldSchema::new(name, FieldType::Float);
        schema.required = self.required;
        schema
    }
}

/// A float field.
pub fn float() -> (r: FloatFieldBuilder)
    ensures
        !r.required,
{
    FloatFieldBuilder::new()
}

/// A string field.
pub fn string() -> (r: StringFieldBuilder)
    ensures
        r.constraints.min_length is None,
        r.constraints.max_length is None,
        !r.constraints.email,
        !r.required,
        r.default is None,
{
    StringFieldBuilder::new()
}

/// An integer field.
pub fn integer() -> (r: IntFieldBuilder)
    ensures
        r.constraints == (IntConstraints { min: None, max: None, positive: false, negative: false }),
        !r.required,
        r.default is None,
{
    IntFieldBuilder::new()
}

/// A boolean field.
pub fn boolean() -> (r: BoolFieldBuilder)
    ensures
        !r.required,
        r.default is None,
{
    BoolFieldBuilder::new()
}

/// A reference field.
pub fn reference() -> (r: RefFieldBuilder)
    ensures
        !r.required,
{
    RefFieldBuilder::new()
}

} // verus!

verus! {

/// What a row holds for field `f`.
pub open spec fn row_value(row: Map<Seq<char>, ValueV>, f: Seq<char>) -> Option<ValueV> {
    if row.contains_key(f) {
        Some(row[f])
    } else {
        None
    }
}

/// The name under which a failing field of row `ri` is reported.
pub open spec fn error_field(ri: int, name: Seq<char>) -> Seq<char> {
    "["@ + int_text(ri) + "]."@ + name
}

/// The errors of row `ri` under the given field schemas, in schema order.
pub open spec fn row_errors(schemas: Seq<FieldSchema>, row: Map<Seq<char>, ValueV>, ri: int) -> Seq<
    (Seq<char>, Seq<char>),
>
    decreases schemas.len(),
{
    if schemas.len() == 0 {
        Seq::empty()
    } else {
        let s = schemas.last();
        row_errors(schemas.drop_last(), row, ri) + match schema_check(s, row_value(row, s.name@)) {
            Err(m) => seq![(error_field(ri, s.name@), m)],
            Ok(_) => Seq::empty(),
        }
    }
}

/// The errors of all rows, row by row.
pub open spec fn table_errors(schemas: Seq<FieldSchema>, rows: Seq<Map<Seq<char>, ValueV>>) -> Seq<
    (Seq<char>, Seq<char>),
>
    decreases rows.len(),
{
    if rows.len() == 0 {
        Seq::empty()
    } else {
        table_errors(schemas, rows.drop_last()) + row_errors(schemas, rows.last(), rows.len() - 1)
    }
}

/// The validated values of a row, for the fields that passed.
pub open spec fn validated_row(schemas: Seq<FieldSchema>, row: Map<Seq<char>, ValueV>) -> Map<
    Seq<char>,
    ValueV,
>
    decreases schemas.len(),
{
    if schemas.len() == 0 {
        Map::empty()
    } else {
        let s = schemas.last();
        match schema_check(s, row_value(row, s.name@)) {
            Ok(v) => validated_row(schemas.drop_last(), row).insert(s.name@, v),
            Err(_) => validated_row(schemas.drop_last(), row),
        }
    }
}

/// Schema of a table: its name and the schemas of its fields.
#[derive(Debug, Clone)]
pub struct TableSchema {
    pub name: String,
    pub fields: Vec<FieldSchema>,
}

/// A table schema with no fields.
pub fn table(name: &str) -> (r: TableSchema)
    ensures
        r.name@ == name@,
        r.fields@.len() == 0,
{
    TableSchema::new(name)
}

pub open spec fn errors_view(v: Seq<FieldError>) -> Seq<(Seq<char>, Seq<char>)> {
    v.map_values(|e: FieldError| field_error_view(e))
}

impl TableSchema {
    pub fn new(name: &str) -> (r: TableSchema)
        ensures
            r.name@ == name@,
            r.fields@.len() == 0,
    {
        TableSchema { name: String::from_str(name), fields: Vec::new() }
    }

    /// Adds a field schema.
    pub fn field(self, schema: FieldSchema) -> (r: TableSchema)
        ensures
            r.name == self.name,
            r.fields@ == self.fields@.push(schema),
    {
        let mut t = self;
        t.fields.push(schema);
        t
    }

    /// Checks the errors of one row; appends them to `errors` and returns the
    /// validated row.
    fn validate_row(&self, row: &Row, ri: usize, errors: &mut Vec<FieldError>) -> (r: ValidatedRow)
        requires
            forall|i: int| 0 <= i < old(errors)@.len() ==> (#[trigger] old(errors)@[i]).value is None,
        ensures
            forall|i: int| 0 <= i < final(errors)@.len() ==> (#[trigger] final(errors)@[i]).value is None,
            errors_view(final(errors)@) == errors_view(old(errors)@) + row_errors(self.fields@, row@, ri as int),
            r@ == validated_row(self.fields@, row@),
    {
        let ghost fs = self.fields@;
        let mut out = ValidatedRow::new();
        let prefix = {
            let mut p = String::new();
            push_str(&mut p, "[");
            let d = crate::model::u64_text(ri as u64);
            p.append(d.as_str());
            push_str(&mut p, "].");
            proof {
                assert(p@ =~= "["@ + int_text(ri as int) + "]."@);
            }
            p
        };
        let mut k: usize = 0;
        proof {
            assert(fs.take(0) =~= Seq::<FieldSchema>::empty());
            assert(errors_view(errors@) =~= errors_view(old(errors)@) + row_errors(fs.take(0), row@, ri as int));
        }
        while k < self.fields.len()
            invariant
                k <= self.fields.len(),
                fs == self.fields@,
                prefix@ == "["@ + int_text(ri as int) + "]."@,
                errors_view(errors@) == errors_view(old(errors)@) + row_errors(fs.take(k as int), row@, ri as int),
                forall|i: int| 0 <= i < errors@.len() ==> (#[trigger] errors@[i]).value is None,
                out@ == validated_row(fs.take(k as int), row@),
            decreases self.fields.len() - k,
        {
            let s = &self.fields[k];
            let value = row.get(s.name.as_str());
            let ghost before = errors_view(errors@);
            proof {
                assert(fs.take(k + 1).drop_last() =~= fs.take(k as int));
                assert(fs.take(k + 1).last() == *s);
                assert(row_value(row@, s.name@) == match value {
                    Some(v) => Some(v@),
                    None => None::<ValueV>,
                });
            }
            match s.validate(value) {
                Ok(v) => {
                    out.insert(copy_string(&s.name), v);
                    proof {
                        assert(errors_view(errors@) =~= errors_view(old(errors)@) + row_errors(fs.take(k + 1), row@, ri as int));
                    }
                },
                Err(e) => {
                    let mut field = copy_string(&prefix);
                    field.append(s.name.as_str());
                    proof {
                        let sc = schema_check(*s, row_value(row@, s.name@));
                        assert(sc is Err);
                        assert(e@ == single_error(s.name@, sc->Err_0));
                        assert(e@.len() == 1);
                        assert(e@[0] == field_error_view(e.errors@[0]));
                    }
                    let message = copy_string(&e.errors[0].message);
                    let ghost fe = (field@, message@);
                    errors.push(FieldError { field, message, value: None });
                    proof {
                        assert(errors_view(errors@) =~= before.push(fe));
                        assert(fe == (error_field(ri as int, s.name@), e@[0].1));
                        assert(errors_view(errors@) =~= errors_view(old(errors)@) + row_errors(fs.take(k + 1), row@, ri as int));
                    }
                },
            }
            k += 1;
        }
        proof {
            assert(fs.take(k as int) =~= fs);
        }
        out
    }

    /// Validates the first block named like this schema: every row, every
    /// field. All failing fields are reported together.
    pub fn validate(&self, doc: &Document) -> (r: Result<ValidatedTable, ValidationError>)
        ensures
            match crate::model::first_named(doc@, self.name@) {
                None => r is Err && r->Err_0@ == seq![(""@, "Missing table: "@ + self.name@)] && no_values(r->Err_0),
                Some(bi) => {
                    let rows = doc@[bi].rows;
                    let errs = table_errors(self.fields@, rows);
                    if errs.len() > 0 {
                        r is Err && r->Err_0@ == errs && no_values(r->Err_0)
                    } else {
                        r is Ok && r->Ok_0.name@ == self.name@ && r->Ok_0.rows@.map_values(
                            |v: ValidatedRow| v@,
                        ) == rows.map_values(|m: Map<Seq<char>, ValueV>| validated_row(self.fields@, m))
                    }
                },
            },
    {
        let block = match doc.get(self.name.as_str()) {
            Some(b) => b,
            None => {
                let mut m = String::from_str("Missing table: ");
                m.append(self.name.as_str());
                return Err(single_owned("", m));
            },
        };
        let ghost rows = block@.rows;
        let mut table = ValidatedTable { name: copy_string(&self.name), rows: Vec::new() };
        let mut errors: Vec<FieldError> = Vec::new();
        let mut ri: usize = 0;
        proof {
            assert(rows.take(0) =~= Seq::<Map<Seq<char>, ValueV>>::empty());
            assert(errors_view(errors@) =~= Seq::empty());
            assert(table.rows@.map_values(|v: ValidatedRow| v@) =~= Seq::empty());
        }
        while ri < block.rows.len()
            invariant
                ri <= block.rows.len(),
                rows == block@.rows,
                table.name@ == self.name@,
                errors_view(errors@) == table_errors(self.fields@, rows.take(ri as int)),
                forall|i: int| 0 <= i < errors@.len() ==> (#[trigger] errors@[i]).value is None,
                table.rows@.map_values(|v: ValidatedRow| v@) == rows.take(ri as int).map_values(
                    |m: Map<Seq<char>, ValueV>| validated_row(self.fields@, m),
                ),
            decreases block.rows.len() - ri,
        {
            let ghost prev = table.rows@.map_values(|v: ValidatedRow| v@);
            let vr = self.validate_row(&block.rows[ri], ri, &mut errors);
            let ghost vv = vr@;
            table.rows.push(vr);
            proof {
                assert(rows.take(ri + 1).drop_last() =~= rows.take(ri as int));
                assert(rows.take(ri + 1).last() == block.rows@[ri as int]@);
                assert(table.rows@.map_values(|v: ValidatedRow| v@) =~= prev.push(vv));
                assert(table.rows@.map_values(|v: ValidatedRow| v@) =~= rows.take(ri + 1).map_values(
                    |m: Map<Seq<char>, ValueV>| validated_row(self.fields@, m),
                ));
            }
            ri += 1;
        }
        proof {
            assert(rows.take(ri as int) =~= rows);
        }
        if errors.len() > 0 {
            return Err(ValidationError::new(errors));
        }
        Ok(table)
    }
}

} // verus!
