//! The type registry of a program: classes, enums and LLM functions.

use vstd::prelude::*;
use crate::builtins::{joined};

verus! {

/// The type of a field.
#[derive(Debug)]
pub enum FieldType {
    String,
    Int,
    Float,
    Bool,
    Path,
    Class(String),
    Enum(String),
    List(Box<FieldType>),
    /// A map from the first type to the second (written `Map<K, V>`).
    MapOf(Box<FieldType>, Box<FieldType>),
    Union(Vec<FieldType>),
}

/// A field of a class.
#[derive(Debug)]
pub struct Field {
    pub name: String,
    pub field_type: FieldType,
    pub optional: bool,
    pub description: Option<String>,
}

/// A structured type with named fields.
#[derive(Debug)]
pub struct Class {
    pub name: String,
    pub description: Option<String>,
    pub fields: Vec<Field>,
}

/// A type with a fixed set of variants.
#[derive(Debug)]
pub struct Enum {
    pub name: String,
    pub description: Option<String>,
    pub values: Vec<String>,
}

/// An LLM function: its inputs, output type and prompt.
#[derive(Debug)]
pub struct Function {
    pub name: String,
    pub inputs: Vec<Field>,
    pub output: FieldType,
    pub prompt_template: String,
    pub client: String,
}

/// All type definitions and functions of a program.
#[derive(Debug)]
pub struct IR {
    pub classes: Vec<Class>,
    pub enums: Vec<Enum>,
    pub functions: Vec<Function>,
}

/// How a field type is written.
pub open spec fn field_type_text(t: FieldType) -> Seq<char>
    decreases t,
{
    match t {
        FieldType::String => "String"@,
        FieldType::Int => "Int"@,
        FieldType::Float => "Float"@,
        FieldType::Bool => "Bool"@,
        FieldType::Path => "Path"@,
        FieldType::Class(name) => name@,
        FieldType::Enum(name) => name@,
        FieldType::List(inner) => "["@ + field_type_text(*inner) + "]"@,
        FieldType::MapOf(k, v) => "Map<"@ + field_type_text(*k) + ", "@ + field_type_text(*v) + ">"@,
        FieldType::Union(ts) => joined(union_texts(ts@), " | "@),
    }
}

/// How each type of a union is written.
pub open spec fn union_texts(ts: Seq<FieldType>) -> Seq<Seq<char>>
    decreases ts,
{
    Seq::new(ts.len(), |i: int| if 0 <= i < ts.len() { field_type_text(ts[i]) } else { Seq::empty() })
}

impl FieldType {
    /// The written form of the type, such as `[Int]` or `Map<String, Int>`.
    pub fn to_text(&self) -> (r: String)
        ensures
            r@ == field_type_text(*self),
        decreases *self,
    {
        match self {
            FieldType::String => "String".to_owned(),
            FieldType::Int => "Int".to_owned(),
            FieldType::Float => "Float".to_owned(),
            FieldType::Bool => "Bool".to_owned(),
            FieldType::Path => "Path".to_owned(),
            FieldType::Class(name) => name.clone(),
            FieldType::Enum(name) => name.clone(),
            FieldType::List(inner) => {
                let mut s = "[".to_owned();
                let t = inner.to_text();
                s.append(t.as_str());
                s.append("]");
                s
            },
            FieldType::MapOf(k, v) => {
                let mut s = "Map<".to_owned();
                let kt = k.to_text();
                s.append(kt.as_str());
                s.append(", ");
                let vt = v.to_text();
                s.append(vt.as_str());
                s.append(">");
                s
            },
            FieldType::Union(ts) => {
                let mut parts: Vec<String> = Vec::new();
                let mut i: usize = 0;
                while i < ts.len()
                    invariant
                        i <= ts@.len(),
                        *self == FieldType::Union(*ts),
                        parts@.len() == i,
                        forall|k: int| 0 <= k < i ==> #[trigger] parts@[k]@ == field_type_text(ts@[k]),
                    decreases ts@.len() - i,
                {
                    proof {
                        assert(*ts == (*self)->Union_0);
                        assert(decreases_to!(*self => (*self)->Union_0));
                        assert(decreases_to!(*ts => ts@));
                        assert(decreases_to!(ts@ => ts@[i as int]));
                    }
                    let t = ts[i].to_text();
                    parts.push(t);
                    i = i + 1;
                }
                proof {
                    assert(crate::builtins::string_views(parts@) =~= union_texts(ts@));
                }
                crate::builtins::join(parts, " | ")
            },
        }
    }
}

/// The index of the first of `names` equal to `name`.
pub open spec fn index_of_first(names: Seq<Seq<char>>, name: Seq<char>) -> int
    decreases names.len(),
{
    if names.len() == 0 {
        -1
    } else if names[0] == name {
        0
    } else {
        let r = index_of_first(names.drop_first(), name);
        if r < 0 { -1 } else { r + 1 }
    }
}

pub open spec fn class_names(cs: Seq<Class>) -> Seq<Seq<char>> {
    cs.map_values(|c: Class| c.name@)
}

pub open spec fn enum_names(es: Seq<Enum>) -> Seq<Seq<char>> {
    es.map_values(|e: Enum| e.name@)
}

pub open spec fn function_names(fs: Seq<Function>) -> Seq<Seq<char>> {
    fs.map_values(|f: Function| f.name@)
}

proof fn lemma_index_of_first(names: Seq<Seq<char>>, name: Seq<char>, i: int)
    requires
        0 <= i <= names.len(),
        forall|j: int| 0 <= j < i ==> names[j] != name,
    ensures
        index_of_first(names, name) == index_of_first(names.subrange(i, names.len() as int), name)
            + (if index_of_first(names.subrange(i, names.len() as int), name) < 0 { 0 } else { i }),
    decreases i,
{
    if i > 0 {
        let t = names.drop_first();
        assert forall|j: int| 0 <= j < i - 1 implies t[j] != name by {
            assert(t[j] == names[j + 1]);
        }
        lemma_index_of_first(t, name, i - 1);
        assert(t.subrange(i - 1, t.len() as int) =~= names.subrange(i, names.len() as int));
        assert(names[0] != name);
    } else {
        assert(names.subrange(0, names.len() as int) =~= names);
    }
}

/// Finds the position of the first of `names` equal to `name`.
fn find_name(names: Ghost<Seq<Seq<char>>>, items_len: usize, name_at: &Vec<String>, name: &str) -> (r: Option<usize>)
    requires
        names@ == name_at@.map_values(|s: String| s@),
        items_len == name_at@.len(),
    ensures
        match r {
            Some(i) => i as int == index_of_first(names@, name@),
            None => index_of_first(names@, name@) == -1,
        },
{
    let mut i: usize = 0;
    while i < name_at.len()
        invariant
            i <= name_at@.len(),
            names@ == name_at@.map_values(|s: String| s@),
            forall|j: int| 0 <= j < i ==> names@[j] != name@,
        decreases name_at@.len() - i,
    {
        if str_eq(name_at[i].as_str(), name) {
            proof {
                lemma_index_of_first(names@, name@, i as int);
                let rest = names@.subrange(i as int, names@.len() as int);
                assert(rest[0] == name@);
            }
            return Some(i);
        }
        i = i + 1;
    }
    proof {
        lemma_index_of_first(names@, name@, i as int);
        assert(names@.subrange(i as int, names@.len() as int).len() == 0);
    }
    None
}

/// Compares two strings by their characters.
pub fn str_eq(a: &str, b: &str) -> (r: bool)
    ensures
        r == (a@ == b@),
{
    let x = crate::text::chars_of(a);
    let y = crate::text::chars_of(b);
    if x.len() != y.len() {
        return false;
    }
    let mut i: usize = 0;
    while i < x.len()
        invariant
            i <= x@.len() == y@.len(),
            x@ == a@,
            y@ == b@,
            forall|k: int| 0 <= k < i ==> x@[k] == y@[k],
        decreases x@.len() - i,
    {
        if x[i] != y[i] {
            return false;
        }
        i = i + 1;
    }
    assert(x@ =~= y@);
    true
}

impl IR {
    /// An empty registry.
    pub fn new() -> (r: Self)
        ensures
            r.classes@.len() == 0,
            r.enums@.len() == 0,
            r.functions@.len() == 0,
    {
        IR { classes: Vec::new(), enums: Vec::new(), functions: Vec::new() }
    }

    /// The first class named `name`.
    pub fn find_class(&self, name: &str) -> (r: Option<&Class>)
        ensures
            match r {
                Some(c) => {
                    let i = index_of_first(class_names(self.classes@), name@);
                    0 <= i < self.classes@.len() && *c == self.classes@[i]
                },
                None => index_of_first(class_names(self.classes@), name@) == -1,
            },
    {
        let mut names: Vec<String> = Vec::new();
        let mut k: usize = 0;
        while k < self.classes.len()
            invariant
                k <= self.classes@.len(),
                names@.len() == k,
                forall|j: int| 0 <= j < k ==> #[trigger] names@[j]@ == self.classes@[j].name@,
            decreases self.classes@.len() - k,
        {
            names.push(self.classes[k].name.clone());
            k = k + 1;
        }
        proof { assert(names@.map_values(|s: String| s@) =~= class_names(self.classes@)); }
        match find_name(Ghost(class_names(self.classes@)), names.len(), &names, name) {
            Some(i) => {
                proof { lemma_index_bound(class_names(self.classes@), name@); }
                Some(&self.classes[i])
            },
            None => None,
        }
    }

    /// The first enum named `name`.
    pub fn find_enum(&self, name: &str) -> (r: Option<&Enum>)
        ensures
            match r {
                Some(e) => {
                    let i = index_of_first(enum_names(self.enums@), name@);
                    0 <= i < self.enums@.len() && *e == self.enums@[i]
                },
                None => index_of_first(enum_names(self.enums@), name@) == -1,
            },
    {
        let mut names: Vec<String> = Vec::new();
        let mut k: usize = 0;
        while k < self.enums.len()
            invariant
                k <= self.enums@.len(),
                names@.len() == k,
                forall|j: int| 0 <= j < k ==> #[trigger] names@[j]@ == self.enums@[j].name@,
            decreases self.enums@.len() - k,
        {
            names.push(self.enums[k].name.clone());
            k = k + 1;
        }
        proof { assert(names@.map_values(|s: String| s@) =~= enum_names(self.enums@)); }
        match find_name(Ghost(enum_names(self.enums@)), names.len(), &names, name) {
            Some(i) => {
                proof { lemma_index_bound(enum_names(self.enums@), name@); }
                Some(&self.enums[i])
            },
            None => None,
        }
    }

    /// The first function named `name`.
    pub fn find_function(&self, name: &str) -> (r: Option<&Function>)
        ensures
            match r {
                Some(f) => {
                    let i = index_of_first(function_names(self.functions@), name@);
                    0 <= i < self.functions@.len() && *f == self.functions@[i]
                },
                None => index_of_first(function_names(self.functions@), name@) == -1,
            },
    {
        let mut names: Vec<String> = Vec::new();
        let mut k: usize = 0;
        while k < self.functions.len()
            invariant
                k <= self.functions@.len(),
                names@.len() == k,
                forall|j: int| 0 <= j < k ==> #[trigger] names@[j]@ == self.functions@[j].name@,
            decreases self.functions@.len() - k,
        {
            names.push(self.functions[k].name.clone());
            k = k + 1;
        }
        proof { assert(names@.map_values(|s: String| s@) =~= function_names(self.functions@)); }
        match find_name(Ghost(function_names(self.functions@)), names.len(), &names, name) {
            Some(i) => {
                proof { lemma_index_bound(function_names(self.functions@), name@); }
                Some(&self.functions[i])
            },
            None => None,
        }
    }
}

proof fn lemma_index_bound(names: Seq<Seq<char>>, name: Seq<char>)
    ensures
        -1 <= index_of_first(names, name) < names.len(),
        index_of_first(names, name) >= 0 ==> names[index_of_first(names, name)] == name,
    decreases names.len(),
{
    if names.len() > 0 && names[0] != name {
        lemma_index_bound(names.drop_first(), name);
    }
}

} // verus!
