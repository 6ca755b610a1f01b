//! Compiled schemas.

use vstd::prelude::*;

use crate::json_schema::double::Double;

verus! {

/// Type of the values that a schema admits.
#[derive(Clone, Copy, PartialEq, Eq, Structural, Debug)]
pub enum Ty {
    /// No `type`: any JSON value.
    Any,
    Object,
    Array,
    String,
    Integer,
    Number,
    Boolean,
    Null,
}

/// One compiled schema. Subschemas are indices into the table that holds it; names and string
/// values are held as UTF-8.
#[derive(Debug)]
pub struct Schema {
    pub ty: Ty,
    pub props: Vec<(Vec<u8>, u32)>,
    /// Indices into `props`.
    pub required: Vec<u32>,
    /// `false`: keys outside `props` are refused.
    pub additional: bool,
    pub items: Option<u32>,
    pub min_items: Option<u64>,
    pub max_items: Option<u64>,
    pub min_len: Option<u64>,
    pub max_len: Option<u64>,
    pub minimum: Option<Double>,
    pub maximum: Option<Double>,
    pub excl_min: Option<Double>,
    pub excl_max: Option<Double>,
    pub enum_str: Vec<Vec<u8>>,
    pub enum_int: Vec<i64>,
    pub has_enum: bool,
    pub depth: usize,
}

/// What a [`Schema`] stands for.
#[verifier::ext_equal]
pub ghost struct SchemaView {
    pub ty: Ty,
    pub props: Seq<(Seq<u8>, u32)>,
    pub required: Seq<u32>,
    pub additional: bool,
    pub items: Option<u32>,
    pub min_items: Option<u64>,
    pub max_items: Option<u64>,
    pub min_len: Option<u64>,
    pub max_len: Option<u64>,
    pub minimum: Option<Double>,
    pub maximum: Option<Double>,
    pub excl_min: Option<Double>,
    pub excl_max: Option<Double>,
    pub enum_str: Seq<Seq<u8>>,
    pub enum_int: Seq<i64>,
    pub has_enum: bool,
    pub depth: usize,
}

/// Contents of a list of byte strings.
pub open spec fn byte_lists(v: Seq<Vec<u8>>) -> Seq<Seq<u8>> {
    Seq::new(v.len(), |i: int| v[i]@)
}

impl View for Schema {
    type V = SchemaView;

    open spec fn view(&self) -> SchemaView {
        SchemaView {
            ty: self.ty,
            props: Seq::new(self.props@.len(), |i: int| (self.props@[i].0@, self.props@[i].1)),
            required: self.required@,
            additional: self.additional,
            items: self.items,
            min_items: self.min_items,
            max_items: self.max_items,
            min_len: self.min_len,
            max_len: self.max_len,
            minimum: self.minimum,
            maximum: self.maximum,
            excl_min: self.excl_min,
            excl_max: self.excl_max,
            enum_str: byte_lists(self.enum_str@),
            enum_int: self.enum_int@,
            has_enum: self.has_enum,
            depth: self.depth,
        }
    }
}

/// Contents of a schema table.
pub open spec fn table_view(t: Seq<Schema>) -> Seq<SchemaView> {
    Seq::new(t.len(), |i: int| t[i]@)
}

/// The schema that admits any value.
pub open spec fn any_schema() -> SchemaView {
    SchemaView {
        ty: Ty::Any,
        props: Seq::empty(),
        required: Seq::empty(),
        additional: true,
        items: None,
        min_items: None,
        max_items: None,
        min_len: None,
        max_len: None,
        minimum: None,
        maximum: None,
        excl_min: None,
        excl_max: None,
        enum_str: Seq::empty(),
        enum_int: Seq::empty(),
        has_enum: false,
        depth: 0,
    }
}

impl Schema {
    /// The schema that admits any value of type `ty`.
    pub fn plain(ty: Ty, depth: usize) -> (s: Schema)
        ensures
            s@ == (SchemaView { ty, depth, ..any_schema() }),
    {
        let s = Schema {
            ty,
            props: Vec::new(),
            required: Vec::new(),
            additional: true,
            items: None,
            min_items: None,
            max_items: None,
            min_len: None,
            max_len: None,
            minimum: None,
            maximum: None,
            excl_min: None,
            excl_max: None,
            enum_str: Vec::new(),
            enum_int: Vec::new(),
            has_enum: false,
            depth,
        };
        assert(s@ =~= (SchemaView { ty, depth, ..any_schema() }));
        s
    }

    /// The schema that admits any value.
    pub fn any() -> (s: Schema)
        ensures
            s@ == any_schema(),
    {
        Schema::plain(Ty::Any, 0)
    }
}

} // verus!
