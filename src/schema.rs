use vstd::prelude::*;

verus! {

/// The failures that the matching core reports.
#[derive(Clone, Copy, PartialEq, Eq, Debug, Structural)]
pub enum MonitorError {
    /// A reserved field is missing or has the wrong type, or a document names
    /// a field that the schema lacks.
    SchemaError,
    /// A text field has no indexing options or an unknown tokenizer, or holds
    /// a value that is not a string.
    InvalidArgument,
    /// The underlying index failed.
    IndexError,
    /// An invariant was violated, e.g. a document frequency above the
    /// document count.
    InternalError,
}

/// The name of the reserved field that holds a sub-query's parent id.
pub const MONITOR_QUERY_ID_FIELD_NAME: &'static str = "__monitor_query_id__";

/// The name of the reserved field that marks a sub-query no term constrains.
pub const ANYTERM_FIELD: &'static str = "__anytermfield__";

/// The type of a field and how it is indexed.
#[derive(Debug)]
pub enum FieldType {
    /// Text, with the tokenizer it is indexed with, if it is indexed.
    Str(Option<String>),
    /// A JSON object whose text is indexed with the given tokenizer, if any.
    JsonObject(Option<String>),
    /// An unsigned integer.
    U64 { indexed: bool, stored: bool },
    /// A boolean flag.
    Bool { indexed: bool },
}

#[derive(Debug)]
pub struct FieldEntry {
    pub name: String,
    pub field_type: FieldType,
}

/// The fields of a document, each known by its position.
#[derive(Debug)]
pub struct Schema {
    pub fields: Vec<FieldEntry>,
}

/// Whether terms of field `f` come from analysed text.
pub open spec fn is_text_field(fields: Seq<FieldEntry>, f: u32) -> bool {
    f < fields.len() && (fields[f as int].field_type is Str || fields[f as int].field_type is JsonObject)
}

impl FieldType {
    pub fn duplicate(&self) -> (r: FieldType)
        ensures
            r == *self,
    {
        match self {
            FieldType::Str(t) => FieldType::Str(
                match t {
                    Some(n) => Some(n.clone()),
                    None => None,
                },
            ),
            FieldType::JsonObject(t) => FieldType::JsonObject(
                match t {
                    Some(n) => Some(n.clone()),
                    None => None,
                },
            ),
            FieldType::U64 { indexed, stored } => FieldType::U64 { indexed: *indexed, stored: *stored },
            FieldType::Bool { indexed } => FieldType::Bool { indexed: *indexed },
        }
    }
}

impl FieldEntry {
    pub fn duplicate(&self) -> (r: FieldEntry)
        ensures
            r.name@ == self.name@,
            r.field_type == self.field_type,
    {
        FieldEntry { name: self.name.clone(), field_type: self.field_type.duplicate() }
    }
}

/// Two field lists that agree on names and types.
pub open spec fn same_fields(a: Seq<FieldEntry>, b: Seq<FieldEntry>) -> bool {
    &&& a.len() == b.len()
    &&& forall|i: int|
        #![trigger a[i]]
        0 <= i < a.len() ==> a[i].name@ == b[i].name@ && a[i].field_type == b[i].field_type
}

impl Schema {
    pub fn new() -> (r: Schema)
        ensures
            r.fields@.len() == 0,
    {
        Schema { fields: Vec::new() }
    }

    /// Adds a field and returns its id.
    pub fn add_field(&mut self, entry: FieldEntry) -> (r: u32)
        requires
            old(self).fields@.len() < u32::MAX,
        ensures
            r == old(self).fields@.len(),
            final(self).fields@ == old(self).fields@.push(entry),
    {
        let id = self.fields.len() as u32;
        self.fields.push(entry);
        id
    }

    /// Adds a text field indexed with the tokenizer `tokenizer`, if given.
    pub fn add_text_field(&mut self, name: String, tokenizer: Option<String>) -> (r: u32)
        requires
            old(self).fields@.len() < u32::MAX,
        ensures
            r == old(self).fields@.len(),
            final(self).fields@ == old(self).fields@.push(
                FieldEntry { name, field_type: FieldType::Str(tokenizer) },
            ),
    {
        self.add_field(FieldEntry { name, field_type: FieldType::Str(tokenizer) })
    }

    /// The id of the first field named `name`.
    pub fn get_field(&self, name: &str) -> (r: Option<u32>)
        ensures
            match r {
                Some(f) => f < self.fields@.len() && self.fields@[f as int].name@ == name@ && forall|
                    g: int,
                | 0 <= g < f ==> self.fields@[g].name@ != name@,
                None => forall|g: int|
                    0 <= g < self.fields@.len() && g < u32::MAX ==> #[trigger] self.fields@[g].name@
                        != name@,
            },
    {
        let target = name.to_owned();
        let mut i: usize = 0;
        while i < self.fields.len() && i < u32::MAX as usize
            invariant
                i <= self.fields@.len(),
                i <= u32::MAX,
                target@ == name@,
                forall|g: int| 0 <= g < i ==> #[trigger] self.fields@[g].name@ != name@,
            decreases self.fields@.len() - i,
        {
            if self.fields[i].name == target {
                return Some(i as u32);
            }
            i = i + 1;
        }
        None
    }

    pub fn duplicate(&self) -> (r: Schema)
        ensures
            same_fields(r.fields@, self.fields@),
    {
        let mut fields: Vec<FieldEntry> = Vec::new();
        let mut i: usize = 0;
        while i < self.fields.len()
            invariant
                i <= self.fields@.len(),
                same_fields(fields@, self.fields@.subrange(0, i as int)),
            decreases self.fields@.len() - i,
        {
            fields.push(self.fields[i].duplicate());
            i = i + 1;
        }
        assert(self.fields@.subrange(0, self.fields@.len() as int) == self.fields@);
        Schema { fields }
    }
}

/// Builds the schema of the query index.
pub struct MonitorQuerySchemaBuilder;

impl MonitorQuerySchemaBuilder {
    /// The document schema followed by the two reserved fields: the parent
    /// query id, an indexed and stored `u64`, and the any-term marker, an
    /// indexed `bool`.
    pub fn build(schema: Schema) -> (r: Schema)
        ensures
            r.fields@.len() == schema.fields@.len() + 2,
            same_fields(r.fields@.subrange(0, schema.fields@.len() as int), schema.fields@),
            r.fields@[schema.fields@.len() as int].name@ == MONITOR_QUERY_ID_FIELD_NAME@,
            r.fields@[schema.fields@.len() as int].field_type == (FieldType::U64 {
                indexed: true,
                stored: true,
            }),
            r.fields@[schema.fields@.len() as int + 1].name@ == ANYTERM_FIELD@,
            r.fields@[schema.fields@.len() as int + 1].field_type == (FieldType::Bool { indexed: true }),
    {
        let mut fields = schema.fields;
        let ghost before = fields@;
        fields.push(
            FieldEntry {
                name: MONITOR_QUERY_ID_FIELD_NAME.to_owned(),
                field_type: FieldType::U64 { indexed: true, stored: true },
            },
        );
        fields.push(
            FieldEntry {
                name: ANYTERM_FIELD.to_owned(),
                field_type: FieldType::Bool { indexed: true },
            },
        );
        assert(fields@.subrange(0, before.len() as int) =~= before);
        Schema { fields }
    }
}

/// A value held by a document field.
#[derive(Debug)]
pub enum FieldValue {
    Str(String),
    U64(u64),
    Bool(bool),
}

/// A document: field values, each with the id of its field.
#[derive(Debug)]
pub struct Document {
    pub values: Vec<(u32, FieldValue)>,
}

impl Document {
    pub fn new() -> (r: Document)
        ensures
            r.values@.len() == 0,
    {
        Document { values: Vec::new() }
    }

    pub fn add_text(&mut self, field: u32, text: String)
        ensures
            final(self).values@ == old(self).values@.push((field, FieldValue::Str(text))),
    {
        self.values.push((field, FieldValue::Str(text)));
    }

    pub fn add_u64(&mut self, field: u32, value: u64)
        ensures
            final(self).values@ == old(self).values@.push((field, FieldValue::U64(value))),
    {
        self.values.push((field, FieldValue::U64(value)));
    }

    pub fn add_bool(&mut self, field: u32, value: bool)
        ensures
            final(self).values@ == old(self).values@.push((field, FieldValue::Bool(value))),
    {
        self.values.push((field, FieldValue::Bool(value)));
    }
}

} // verus!
