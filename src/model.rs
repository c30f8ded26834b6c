//! The document model: values, references, rows, blocks and documents.
use vstd::prelude::*;
use crate::text::{chars_of, char_is_uppercase, uppercase};

verus! {

/// Error of a parse: a message and, where it applies, the 1-based line.
#[derive(Debug, Clone)]
pub struct ISONError {
    pub message: String,
    pub line: Option<usize>,
}

/// The text of an error: `Line <n>: <message>`, or the message alone when
/// no line applies.
pub open spec fn error_text(message: Seq<char>, line: Option<usize>) -> Seq<char> {
    match line {
        Some(n) => "Line "@ + int_text(n as int) + ": "@ + message,
        None => message,
    }
}

impl ISONError {
    /// The error as text.
    pub fn to_string(&self) -> (r: String)
        ensures
            r@ == error_text(self.message@, self.line),
    {
        match self.line {
            Some(n) => {
                let mut out = String::from_str("Line ");
                let d = u64_text(n as u64);
                out.append(d.as_str());
                crate::text::push_str(&mut out, ": ");
                out.append(self.message.as_str());
                out
            },
            None => self.message.clone(),
        }
    }
}

/// Whether two character vectors are equal.
pub fn chars_eq(x: &Vec<char>, y: &Vec<char>) -> (r: bool)
    ensures
        r == (x@ == y@),
{
    if x.len() != y.len() {
        return false;
    }
    let mut i: usize = 0;
    while i < x.len()
        invariant
            i <= x.len() == y.len(),
            forall|k: int| 0 <= k < i ==> x@[k] == y@[k],
        decreases x.len() - i,
    {
        if x[i] != y[i] {
            return false;
        }
        i += 1;
    }
    proof {
        assert(x@ =~= y@);
    }
    true
}

/// Whether the characters `x` spell the string `s`.
pub fn chars_eq_str(x: &Vec<char>, s: &str) -> (r: bool)
    ensures
        r == (x@ == s@),
{
    let y = chars_of(s);
    chars_eq(x, &y)
}

/// The view of an optional string.
pub open spec fn opt_view(o: Option<String>) -> Option<Seq<char>> {
    match o {
        Some(s) => Some(s@),
        None => None,
    }
}

/// A reference to a record: an id, and optionally a type or namespace.
#[derive(Debug, Clone, PartialEq)]
pub struct Reference {
    pub id: String,
    pub ref_type: Option<String>,
}

/// Mathematical view of a reference.
pub struct RefV {
    pub id: Seq<char>,
    pub ref_type: Option<Seq<char>>,
}

impl View for Reference {
    type V = RefV;

    open spec fn view(&self) -> RefV {
        RefV { id: self.id@, ref_type: opt_view(self.ref_type) }
    }
}

/// A type made only of uppercase letters and underscores marks a
/// relationship.
pub open spec fn relationship_type(t: Seq<char>) -> bool {
    forall|i: int| 0 <= i < t.len() ==> uppercase(#[trigger] t[i]) || t[i] == '_'
}

pub open spec fn ref_is_relationship(r: RefV) -> bool {
    match r.ref_type {
        Some(t) => relationship_type(t),
        None => false,
    }
}

/// `:id`, or `:type:id` for a typed reference.
pub open spec fn ref_text(r: RefV) -> Seq<char> {
    match r.ref_type {
        Some(t) => seq![':'] + t + seq![':'] + r.id,
        None => seq![':'] + r.id,
    }
}

impl Reference {
    /// A simple reference.
    pub fn new(id: &str) -> (r: Reference)
        ensures
            r@ == (RefV { id: id@, ref_type: None }),
    {
        Reference { id: String::from_str(id), ref_type: None }
    }

    /// A typed reference.
    pub fn with_type(id: &str, ref_type: &str) -> (r: Reference)
        ensures
            r@ == (RefV { id: id@, ref_type: Some(ref_type@) }),
    {
        Reference { id: String::from_str(id), ref_type: Some(String::from_str(ref_type)) }
    }

    /// Whether this reference has a type made only of uppercase letters and
    /// underscores.
    pub fn is_relationship(&self) -> (r: bool)
        ensures
            r == ref_is_relationship(self@),
    {
        match &self.ref_type {
            Some(t) => {
                let c = chars_of(t.as_str());
                let mut i: usize = 0;
                while i < c.len()
                    invariant
                        i <= c.len(),
                        c@ == t@,
                        self@.ref_type == Some(t@),
                        forall|k: int| 0 <= k < i ==> uppercase(#[trigger] c@[k]) || c@[k] == '_',
                    decreases c.len() - i,
                {
                    if !(char_is_uppercase(c[i]) || c[i] == '_') {
                        proof {
                            assert(!(uppercase(t@[i as int]) || t@[i as int] == '_'));
                            assert(self@.ref_type == Some(t@));
                            assert(!relationship_type(t@));
                        }
                        return false;
                    }
                    i += 1;
                }
                proof {
                    assert(self@.ref_type == Some(t@));
                }
                true
            },
            None => false,
        }
    }

    /// The type of a reference that is not a relationship.
    pub fn get_namespace(&self) -> (r: Option<&str>)
        ensures
            match r {
                Some(s) => self@.ref_type == Some(s@) && !ref_is_relationship(self@),
                None => self@.ref_type is None || ref_is_relationship(self@),
            },
    {
        if self.is_relationship() {
            None
        } else {
            match &self.ref_type {
                Some(t) => Some(t.as_str()),
                None => None,
            }
        }
    }

    /// The type of a relationship reference.
    pub fn relationship_type(&self) -> (r: Option<&str>)
        ensures
            match r {
                Some(s) => self@.ref_type == Some(s@) && ref_is_relationship(self@),
                None => !ref_is_relationship(self@),
            },
    {
        if self.is_relationship() {
            match &self.ref_type {
                Some(t) => Some(t.as_str()),
                None => None,
            }
        } else {
            None
        }
    }

    /// The reference as text: the same as `to_ison`.
    pub fn to_string(&self) -> (r: String)
        ensures
            r@ == ref_text(self@),
    {
        self.to_ison()
    }

    /// The reference as written in ISON text.
    pub fn to_ison(&self) -> (r: String)
        ensures
            r@ == ref_text(self@),
    {
        let mut out = String::new();
        crate::text::push_char(&mut out, ':');
        match &self.ref_type {
            Some(t) => {
                out.append(t.as_str());
                crate::text::push_char(&mut out, ':');
            },
            None => {},
        }
        out.append(self.id.as_str());
        proof {
            assert(out@ =~= ref_text(self@));
        }
        out
    }
}

/// A value of a row. A float is held as the decimal literal that denotes
/// it.
#[derive(Debug, Clone, PartialEq)]
pub enum Value {
    Null,
    Bool(bool),
    Int(i64),
    Float(String),
    String(String),
    Reference(Reference),
}

/// Mathematical view of a value.
pub enum ValueV {
    Null,
    Bool(bool),
    Int(int),
    Float(Seq<char>),
    Str(Seq<char>),
    Ref(RefV),
}

impl View for Value {
    type V = ValueV;

    open spec fn view(&self) -> ValueV {
        match self {
            Value::Null => ValueV::Null,
            Value::Bool(b) => ValueV::Bool(*b),
            Value::Int(i) => ValueV::Int(*i as int),
            Value::Float(t) => ValueV::Float(t@),
            Value::String(s) => ValueV::Str(s@),
            Value::Reference(r) => ValueV::Ref(r@),
        }
    }
}

/// A value as plain text: strings unquoted, floats as their literal.
pub open spec fn display_text(v: ValueV) -> Seq<char> {
    match v {
        ValueV::Null => "null"@,
        ValueV::Bool(b) => if b {
            "true"@
        } else {
            "false"@
        },
        ValueV::Int(i) => int_text(i),
        ValueV::Float(t) => t,
        ValueV::Str(s) => s,
        ValueV::Ref(r) => ref_text(r),
    }
}

impl Value {
    /// The value as plain text (see `display_text`).
    pub fn to_string(&self) -> (r: String)
        ensures
            r@ == display_text(self@),
    {
        match self {
            Value::Null => String::from_str("null"),
            Value::Bool(b) => if *b {
                String::from_str("true")
            } else {
                String::from_str("false")
            },
            Value::Int(i) => i64_text(*i),
            Value::Float(t) => t.clone(),
            Value::String(s) => s.clone(),
            Value::Reference(x) => x.to_ison(),
        }
    }

    pub fn is_null(&self) -> (r: bool)
        ensures
            r == (self@ is Null),
    {
        match self {
            Value::Null => true,
            _ => false,
        }
    }

    pub fn is_bool(&self) -> (r: bool)
        ensures
            r == (self@ is Bool),
    {
        match self {
            Value::Bool(_) => true,
            _ => false,
        }
    }

    pub fn is_int(&self) -> (r: bool)
        ensures
            r == (self@ is Int),
    {
        match self {
            Value::Int(_) => true,
            _ => false,
        }
    }

    pub fn is_float(&self) -> (r: bool)
        ensures
            r == (self@ is Float),
    {
        match self {
            Value::Float(_) => true,
            _ => false,
        }
    }

    pub fn is_string(&self) -> (r: bool)
        ensures
            r == (self@ is Str),
    {
        match self {
            Value::String(_) => true,
            _ => false,
        }
    }

    pub fn is_reference(&self) -> (r: bool)
        ensures
            r == (self@ is Ref),
    {
        match self {
            Value::Reference(_) => true,
            _ => false,
        }
    }

    pub fn as_bool(&self) -> (r: Option<bool>)
        ensures
            r == (match self@ {
                ValueV::Bool(b) => Some(b),
                _ => None,
            }),
    {
        match self {
            Value::Bool(b) => Some(*b),
            _ => None,
        }
    }

    pub fn as_int(&self) -> (r: Option<i64>)
        ensures
            match self@ {
                ValueV::Int(i) => r == Some(i as i64),
                _ => r is None,
            },
    {
        match self {
            Value::Int(i) => Some(*i),
            _ => None,
        }
    }

    /// The decimal text of a number: a float's literal, or an integer's
    /// digits.
    pub fn as_float(&self) -> (r: Option<String>)
        ensures
            match self@ {
                ValueV::Float(t) => r is Some && r->0@ == t,
                ValueV::Int(i) => r is Some && r->0@ == int_text(i),
                _ => r is None,
            },
    {
        match self {
            Value::Float(t) => Some(t.clone()),
            Value::Int(i) => Some(i64_text(*i)),
            _ => None,
        }
    }

    pub fn as_str(&self) -> (r: Option<&str>)
        ensures
            match self@ {
                ValueV::Str(s) => r is Some && r->0@ == s,
                _ => r is None,
            },
    {
        match self {
            Value::String(s) => Some(s.as_str()),
            _ => None,
        }
    }

    pub fn as_reference(&self) -> (r: Option<&Reference>)
        ensures
            match self@ {
                ValueV::Ref(x) => r is Some && r->0@ == x,
                _ => r is None,
            },
    {
        match self {
            Value::Reference(x) => Some(x),
            _ => None,
        }
    }
}

pub open spec fn digit_char(d: int) -> char {
    if d == 0 {
        '0'
    } else if d == 1 {
        '1'
    } else if d == 2 {
        '2'
    } else if d == 3 {
        '3'
    } else if d == 4 {
        '4'
    } else if d == 5 {
        '5'
    } else if d == 6 {
        '6'
    } else if d == 7 {
        '7'
    } else if d == 8 {
        '8'
    } else {
        '9'
    }
}

/// Decimal digits of a natural number, without leading zeros.
pub open spec fn nat_text(n: nat) -> Seq<char>
    decreases n,
{
    if n < 10 {
        seq![digit_char(n as int)]
    } else {
        nat_text(n / 10).push(digit_char((n % 10) as int))
    }
}

/// Decimal text of an integer, with `-` before a negative one.
pub open spec fn int_text(i: int) -> Seq<char> {
    if i < 0 {
        seq!['-'] + nat_text((-i) as nat)
    } else {
        nat_text(i as nat)
    }
}

fn digit_of(d: u64) -> (c: char)
    requires
        d < 10,
    ensures
        c == digit_char(d as int),
{
    if d == 0 {
        '0'
    } else if d == 1 {
        '1'
    } else if d == 2 {
        '2'
    } else if d == 3 {
        '3'
    } else if d == 4 {
        '4'
    } else if d == 5 {
        '5'
    } else if d == 6 {
        '6'
    } else if d == 7 {
        '7'
    } else if d == 8 {
        '8'
    } else {
        '9'
    }
}

fn u64_digits(n: u64) -> (r: Vec<char>)
    ensures
        r@ == nat_text(n as nat),
    decreases n,
{
    if n < 10 {
        let mut v: Vec<char> = Vec::new();
        v.push(digit_of(n));
        proof {
            assert(v@ =~= nat_text(n as nat));
        }
        v
    } else {
        let mut v = u64_digits(n / 10);
        v.push(digit_of(n % 10));
        v
    }
}

/// The decimal text of a natural number.
pub fn u64_text(n: u64) -> (r: String)
    ensures
        r@ == nat_text(n as nat),
        r@ == int_text(n as int),
{
    let mut out = String::new();
    let d = u64_digits(n);
    crate::text::push_all(&mut out, &d);
    proof {
        assert(out@ =~= d@);
    }
    out
}

/// The decimal text of an integer.
pub fn i64_text(i: i64) -> (r: String)
    ensures
        r@ == int_text(i as int),
{
    let mut out = String::new();
    let mag: u64 = if i < 0 {
        if i == i64::MIN {
            9223372036854775808u64
        } else {
            (-i) as u64
        }
    } else {
        i as u64
    };
    if i < 0 {
        crate::text::push_char(&mut out, '-');
    }
    let d = u64_digits(mag);
    crate::text::push_all(&mut out, &d);
    out
}

/// Information on one declared field: its name and optional type.
#[derive(Debug, Clone)]
pub struct FieldInfo {
    pub name: String,
    pub field_type: Option<String>,
    pub is_computed: bool,
}

/// Mathematical view of a field declaration.
pub struct FieldInfoV {
    pub name: Seq<char>,
    pub field_type: Option<Seq<char>>,
    pub is_computed: bool,
}

impl View for FieldInfo {
    type V = FieldInfoV;

    open spec fn view(&self) -> FieldInfoV {
        FieldInfoV {
            name: self.name@,
            field_type: opt_view(self.field_type),
            is_computed: self.is_computed,
        }
    }
}

/// The declaration of a field with the given name and optional type; the
/// type `computed` marks a computed field.
pub open spec fn field_info_of(name: Seq<char>, field_type: Option<Seq<char>>) -> FieldInfoV {
    FieldInfoV {
        name,
        field_type,
        is_computed: field_type == Some("computed"@),
    }
}

impl FieldInfo {
    /// A field without a type.
    pub fn new(name: &str) -> (r: FieldInfo)
        ensures
            r@ == field_info_of(name@, None),
    {
        FieldInfo { name: String::from_str(name), field_type: None, is_computed: false }
    }

    /// A field with a type.
    pub fn with_type(name: &str, field_type: &str) -> (r: FieldInfo)
        ensures
            r@ == field_info_of(name@, Some(field_type@)),
    {
        let ft = chars_of(field_type);
        let is_computed = chars_eq_str(&ft, "computed");
        FieldInfo {
            name: String::from_str(name),
            field_type: Some(String::from_str(field_type)),
            is_computed,
        }
    }

    /// Builds the declaration from owned strings.
    pub fn from_parts(name: String, field_type: Option<String>) -> (r: FieldInfo)
        ensures
            r@ == field_info_of(name@, opt_view(field_type)),
    {
        let is_computed = match &field_type {
            Some(t) => {
                let c = chars_of(t.as_str());
                chars_eq_str(&c, "computed")
            },
            None => false,
        };
        FieldInfo { name, field_type, is_computed }
    }
}

/// The map that a sequence of (key, value) pairs stands for; a later pair
/// for a key replaces an earlier one.
pub open spec fn pairs_map(s: Seq<(Seq<char>, ValueV)>) -> Map<Seq<char>, ValueV>
    decreases s.len(),
{
    if s.len() == 0 {
        Map::empty()
    } else {
        pairs_map(s.drop_last()).insert(s.last().0, s.last().1)
    }
}

pub proof fn lemma_pairs_map_last(s: Seq<(Seq<char>, ValueV)>, k: Seq<char>, j: int)
    requires
        0 <= j < s.len(),
        s[j].0 == k,
        forall|m: int| j < m < s.len() ==> (#[trigger] s[m]).0 != k,
    ensures
        pairs_map(s).contains_key(k),
        pairs_map(s)[k] == s[j].1,
    decreases s.len(),
{
    if j < s.len() - 1 {
        lemma_pairs_map_last(s.drop_last(), k, j);
    }
}

pub proof fn lemma_pairs_map_absent(s: Seq<(Seq<char>, ValueV)>, k: Seq<char>)
    requires
        forall|m: int| 0 <= m < s.len() ==> (#[trigger] s[m]).0 != k,
    ensures
        !pairs_map(s).contains_key(k),
    decreases s.len(),
{
    if s.len() > 0 {
        lemma_pairs_map_absent(s.drop_last(), k);
    }
}

pub open spec fn entries_view(s: Seq<(String, Value)>) -> Seq<(Seq<char>, ValueV)> {
    s.map_values(|e: (String, Value)| (e.0@, e.1@))
}

/// A row: values by field name.
#[derive(Debug, Clone)]
pub struct Row {
    entries: Vec<(String, Value)>,
}

impl View for Row {
    type V = Map<Seq<char>, ValueV>;

    closed spec fn view(&self) -> Map<Seq<char>, ValueV> {
        pairs_map(entries_view(self.entries@))
    }
}

impl Row {
    /// An empty row.
    pub fn new() -> (r: Row)
        ensures
            r@ == Map::<Seq<char>, ValueV>::empty(),
    {
        let r = Row { entries: Vec::new() };
        proof {
            assert(entries_view(r.entries@) =~= Seq::empty());
        }
        r
    }

    /// Sets the value of a field.
    pub fn insert(&mut self, field: String, value: Value)
        ensures
            final(self)@ == old(self)@.insert(field@, value@),
    {
        self.entries.push((field, value));
        proof {
            assert(entries_view(self.entries@).drop_last() =~= entries_view(old(self).entries@));
        }
    }

    /// The value of a field, if the row holds one.
    pub fn get(&self, field: &str) -> (r: Option<&Value>)
        ensures
            match r {
                Some(v) => self@.contains_key(field@) && self@[field@] == v@,
                None => !self@.contains_key(field@),
            },
    {
        let key = chars_of(field);
        let mut i: usize = self.entries.len();
        while i > 0
            invariant
                i <= self.entries.len(),
                key@ == field@,
                forall|m: int| i <= m < self.entries.len() ==> (#[trigger] self.entries@[m]).0@
                    != field@,
            decreases i,
        {
            let k = chars_of(self.entries[i - 1].0.as_str());
            if chars_eq(&k, &key) {
                proof {
                    lemma_pairs_map_last(entries_view(self.entries@), field@, i - 1);
                }
                return Some(&self.entries[i - 1].1);
            }
            i -= 1;
        }
        proof {
            lemma_pairs_map_absent(entries_view(self.entries@), field@);
        }
        None
    }
}

/// A named table: its declared fields, its rows and its summary rows.
#[derive(Debug, Clone)]
pub struct Block {
    pub kind: String,
    pub name: String,
    pub fields: Vec<String>,
    pub field_info: Vec<FieldInfo>,
    pub rows: Vec<Row>,
    pub summary_rows: Vec<Row>,
}

/// Mathematical view of a block.
pub struct BlockV {
    pub kind: Seq<char>,
    pub name: Seq<char>,
    pub fields: Seq<Seq<char>>,
    pub field_info: Seq<FieldInfoV>,
    pub rows: Seq<Map<Seq<char>, ValueV>>,
    pub summary_rows: Seq<Map<Seq<char>, ValueV>>,
}

pub open spec fn strings_view(v: Seq<String>) -> Seq<Seq<char>> {
    v.map_values(|s: String| s@)
}

pub open spec fn rows_view(v: Seq<Row>) -> Seq<Map<Seq<char>, ValueV>> {
    v.map_values(|r: Row| r@)
}

impl View for Block {
    type V = BlockV;

    open spec fn view(&self) -> BlockV {
        BlockV {
            kind: self.kind@,
            name: self.name@,
            fields: strings_view(self.fields@),
            field_info: self.field_info@.map_values(|f: FieldInfo| f@),
            rows: rows_view(self.rows@),
            summary_rows: rows_view(self.summary_rows@),
        }
    }
}

/// A block is well formed when each field has its declaration at the same
/// position.
pub open spec fn block_wf(b: BlockV) -> bool {
    &&& b.fields.len() == b.field_info.len()
    &&& forall|i: int| 0 <= i < b.fields.len() ==> (#[trigger] b.field_info[i]).name == b.fields[i]
}

/// Position of the first declaration named `name`.
pub open spec fn first_field_named(f: Seq<FieldInfoV>, name: Seq<char>) -> Option<int> {
    if exists|i: int| 0 <= i < f.len() && (#[trigger] f[i]).name == name {
        Some(choose|i: int| 0 <= i < f.len() && (#[trigger] f[i]).name == name && forall|k: int| 0 <= k < i ==> (#[trigger] f[k]).name != name)
    } else {
        None
    }
}

/// Names of the computed fields among `f`, in order.
pub open spec fn computed_names(f: Seq<FieldInfoV>) -> Seq<Seq<char>>
    decreases f.len(),
{
    if f.len() == 0 {
        Seq::empty()
    } else if f.last().is_computed {
        computed_names(f.drop_last()).push(f.last().name)
    } else {
        computed_names(f.drop_last())
    }
}

impl Block {
    /// An empty block.
    pub fn new(kind: &str, name: &str) -> (r: Block)
        ensures
            r@.kind == kind@,
            r@.name == name@,
            r@.fields.len() == 0,
            r@.field_info.len() == 0,
            r@.rows.len() == 0,
            r@.summary_rows.len() == 0,
    {
        Block::from_header(String::from_str(kind), String::from_str(name))
    }

    /// An empty block with the given kind and name.
    pub fn from_header(kind: String, name: String) -> (r: Block)
        ensures
            r@.kind == kind@,
            r@.name == name@,
            r@.fields.len() == 0,
            r@.field_info.len() == 0,
            r@.rows.len() == 0,
            r@.summary_rows.len() == 0,
    {
        Block {
            kind,
            name,
            fields: Vec::new(),
            field_info: Vec::new(),
            rows: Vec::new(),
            summary_rows: Vec::new(),
        }
    }

    /// Number of data rows.
    pub fn len(&self) -> (r: usize)
        ensures
            r == self@.rows.len(),
    {
        self.rows.len()
    }

    pub fn is_empty(&self) -> (r: bool)
        ensures
            r == (self@.rows.len() == 0),
    {
        self.rows.len() == 0
    }

    /// The data row at `index`.
    pub fn get_row(&self, index: usize) -> (r: Option<&Row>)
        ensures
            match r {
                Some(row) => index < self@.rows.len() && row@ == self@.rows[index as int],
                None => index >= self@.rows.len(),
            },
    {
        if index < self.rows.len() {
            Some(&self.rows[index])
        } else {
            None
        }
    }

    /// The type of the first field declared under `field_name`.
    pub fn get_field_type(&self, field_name: &str) -> (r: Option<&str>)
        ensures
            match first_field_named(self@.field_info, field_name@) {
                Some(i) => match r {
                    Some(t) => self@.field_info[i].field_type == Some(t@),
                    None => self@.field_info[i].field_type is None,
                },
                None => r is None,
            },
    {
        let key = chars_of(field_name);
        let mut i: usize = 0;
        while i < self.field_info.len()
            invariant
                i <= self.field_info.len(),
                key@ == field_name@,
                forall|k: int| 0 <= k < i ==> (#[trigger] self@.field_info[k]).name != field_name@,
            decreases self.field_info.len() - i,
        {
            let n = chars_of(self.field_info[i].name.as_str());
            if chars_eq(&n, &key) {
                proof {
                    let f = self@.field_info;
                    assert(f[i as int].name == field_name@);
                    let j = first_field_named(f, field_name@)->0;
                    assert(0 <= j < f.len() && f[j].name == field_name@ && forall|k: int| 0 <= k < j ==> (#[trigger] f[k]).name != field_name@);
                    assert(j == i);
                }
                return match &self.field_info[i].field_type {
                    Some(t) => Some(t.as_str()),
                    None => None,
                };
            }
            i += 1;
        }
        None
    }

    /// Names of the computed fields, in declaration order.
    pub fn get_computed_fields(&self) -> (r: Vec<String>)
        ensures
            strings_view(r@) == computed_names(self@.field_info),
    {
        let mut out: Vec<String> = Vec::new();
        let mut i: usize = 0;
        while i < self.field_info.len()
            invariant
                i <= self.field_info.len(),
                strings_view(out@) == computed_names(self@.field_info.take(i as int)),
            decreases self.field_info.len() - i,
        {
            let ghost fi = self@.field_info;
            proof {
                assert(fi.take(i + 1).drop_last() =~= fi.take(i as int));
            }
            if self.field_info[i].is_computed {
                out.push(self.field_info[i].name.clone());
            }
            i += 1;
            proof {
                assert(strings_view(out@) =~= computed_names(fi.take(i as int)));
            }
        }
        proof {
            assert(self@.field_info.take(i as int) =~= self@.field_info);
        }
        out
    }
}

/// A document: its blocks, in order.
#[derive(Debug, Clone)]
pub struct Document {
    pub blocks: Vec<Block>,
}

pub open spec fn blocks_view(v: Seq<Block>) -> Seq<BlockV> {
    v.map_values(|b: Block| b@)
}

impl View for Document {
    type V = Seq<BlockV>;

    open spec fn view(&self) -> Seq<BlockV> {
        blocks_view(self.blocks@)
    }
}

/// Position of the first block named `name`, if any.
pub open spec fn first_named(d: Seq<BlockV>, name: Seq<char>) -> Option<int> {
    if exists|i: int| 0 <= i < d.len() && (#[trigger] d[i]).name == name {
        Some(choose|i: int| 0 <= i < d.len() && (#[trigger] d[i]).name == name && forall|k: int| 0 <= k < i ==> (#[trigger] d[k]).name != name)
    } else {
        None
    }
}

impl Document {
    pub fn new() -> (r: Document)
        ensures
            r@.len() == 0,
    {
        Document { blocks: Vec::new() }
    }

    fn find_block(&self, name: &str) -> (r: Option<usize>)
        ensures
            match r {
                Some(i) => first_named(self@, name@) == Some(i as int) && i < self@.len()
                    && self@[i as int].name == name@,
                None => first_named(self@, name@) is None,
            },
    {
        let key = chars_of(name);
        let mut i: usize = 0;
        while i < self.blocks.len()
            invariant
                i <= self.blocks.len(),
                key@ == name@,
                forall|k: int| 0 <= k < i ==> (#[trigger] self@[k]).name != name@,
            decreases self.blocks.len() - i,
        {
            let n = chars_of(self.blocks[i].name.as_str());
            if chars_eq(&n, &key) {
                proof {
                    let d = self@;
                    assert(d[i as int].name == name@);
                    let j = first_named(d, name@)->0;
                    assert(0 <= j < d.len() && d[j].name == name@ && forall|k: int| 0 <= k < j ==> (#[trigger] d[k]).name != name@);
                    assert(j == i);
                }
                return Some(i);
            }
            i += 1;
        }
        None
    }

    /// The first block named `name`.
    pub fn get(&self, name: &str) -> (r: Option<&Block>)
        ensures
            match first_named(self@, name@) {
                Some(i) => r is Some && r->0@ == self@[i],
                None => r is None,
            },
    {
        match self.find_block(name) {
            Some(i) => Some(&self.blocks[i]),
            None => None,
        }
    }

    /// The first block named `name`, to change in place.
    pub fn get_mut(&mut self, name: &str) -> (r: Option<&mut Block>)
        ensures
            match first_named(old(self)@, name@) {
                Some(i) => r is Some && *(r->0) == old(self).blocks@[i] && final(self).blocks@
                    == old(self).blocks@.update(i, *final(r->0)),
                None => r is None && final(self).blocks@ == old(self).blocks@,
            },
    {
        match self.find_block(name) {
            Some(i) => Some(&mut self.blocks[i]),
            None => None,
        }
    }

    /// Whether a block is named `name`.
    pub fn has(&self, name: &str) -> (r: bool)
        ensures
            r == (exists|i: int| 0 <= i < self@.len() && (#[trigger] self@[i]).name == name@),
    {
        match self.find_block(name) {
            Some(i) => {
                proof {
                    assert(self@[i as int].name == name@);
                }
                true
            },
            None => false,
        }
    }

    /// Number of blocks.
    pub fn len(&self) -> (r: usize)
        ensures
            r == self@.len(),
    {
        self.blocks.len()
    }

    pub fn is_empty(&self) -> (r: bool)
        ensures
            r == (self@.len() == 0),
    {
        self.blocks.len() == 0
    }
}

} // verus!
