//! Introspection commands over a catalogue of named types: list the types
//! with their wire kinds, or pick one type to describe.
use vstd::prelude::*;

use crate::schema::Schema;
use crate::types::Ty;

verus! {

/// Named types: `names[k]` names `schema.types[k]`.
pub struct Catalog {
    pub names: Vec<String>,
    pub schema: Schema,
}

impl Catalog {
    pub open spec fn wf(&self) -> bool {
        self.names@.len() == self.schema.types@.len()
    }
}

/// The wire kind of a type, as listed.
#[derive(Clone, Copy, Debug, PartialEq, Eq, Structural)]
pub enum Kind {
    Void,
    Bool,
    Int,
    UInt,
    Hyper,
    UHyper,
    Opaque,
    VarOpaque,
    Str,
    Array,
    VarArray,
    Optional,
    Struct,
    Union,
    Enum,
    Named,
}

pub open spec fn spec_kind(t: Ty) -> Kind {
    match t {
        Ty::Void => Kind::Void,
        Ty::Bool => Kind::Bool,
        Ty::Int => Kind::Int,
        Ty::UInt => Kind::UInt,
        Ty::Hyper => Kind::Hyper,
        Ty::UHyper => Kind::UHyper,
        Ty::Opaque(_) => Kind::Opaque,
        Ty::VarOpaque(_) => Kind::VarOpaque,
        Ty::Str(_) => Kind::Str,
        Ty::Array(_, _) => Kind::Array,
        Ty::VarArray(_, _) => Kind::VarArray,
        Ty::Optional(_) => Kind::Optional,
        Ty::Struct(_) => Kind::Struct,
        Ty::Union(_) => Kind::Union,
        Ty::Enum(_) => Kind::Enum,
        Ty::Named(_) => Kind::Named,
    }
}

pub fn kind_of(t: &Ty) -> (r: Kind)
    ensures
        r == spec_kind(*t),
{
    match t {
        Ty::Void => Kind::Void,
        Ty::Bool => Kind::Bool,
        Ty::Int => Kind::Int,
        Ty::UInt => Kind::UInt,
        Ty::Hyper => Kind::Hyper,
        Ty::UHyper => Kind::UHyper,
        Ty::Opaque(_) => Kind::Opaque,
        Ty::VarOpaque(_) => Kind::VarOpaque,
        Ty::Str(_) => Kind::Str,
        Ty::Array(_, _) => Kind::Array,
        Ty::VarArray(_, _) => Kind::VarArray,
        Ty::Optional(_) => Kind::Optional,
        Ty::Struct(_) => Kind::Struct,
        Ty::Union(_) => Kind::Union,
        Ty::Enum(_) => Kind::Enum,
        Ty::Named(_) => Kind::Named,
    }
}

/// Lists every type of the catalogue.
pub struct ListCmd {}

/// Picks one type of the catalogue by name.
pub struct SchemaCmd {
    pub name: String,
}

pub enum Sub {
    List(ListCmd),
    Schema(SchemaCmd),
}

pub struct Cmd {
    pub sub: Sub,
}

pub enum SchemaError {
    /// No type of the catalogue has this name.
    UnknownType(String),
}

pub enum Error {
    SchemaError(SchemaError),
}

/// One listed type: its name and wire kind.
pub struct Entry {
    pub name: String,
    pub kind: Kind,
}

/// What a command produced.
pub enum Output {
    /// Every type, in catalogue order.
    Types(Vec<Entry>),
    /// The catalogue index of the type asked for.
    Type(usize),
}

/// Index of the first name equal to `name`.
pub open spec fn first_named(names: Seq<String>, name: Seq<char>) -> Option<int>
    decreases names.len(),
{
    if names.len() == 0 {
        None
    } else {
        match first_named(names.drop_last(), name) {
            Some(i) => Some(i),
            None => if names.last()@ == name { Some(names.len() - 1) } else { None },
        }
    }
}

proof fn lemma_first_named_prefix(names: Seq<String>, name: Seq<char>, n: int)
    requires
        0 <= n <= names.len(),
        first_named(names.subrange(0, n), name) is Some,
    ensures
        first_named(names, name) == first_named(names.subrange(0, n), name),
    decreases names.len() - n,
{
    if n < names.len() {
        assert(names.subrange(0, n + 1).drop_last() =~= names.subrange(0, n));
        lemma_first_named_prefix(names, name, n + 1);
    } else {
        assert(names.subrange(0, n) =~= names);
    }
}

fn find_name(names: &Vec<String>, name: &String) -> (r: Option<usize>)
    ensures
        match (r, first_named(names@, name@)) {
            (Some(i), Some(j)) => i == j,
            (None, None) => true,
            _ => false,
        },
{
    let mut i: usize = 0;
    while i < names.len()
        invariant
            i <= names@.len(),
            first_named(names@.subrange(0, i as int), name@) is None,
        decreases names@.len() - i,
    {
        assert(names@.subrange(0, i + 1).drop_last() =~= names@.subrange(0, i as int));
        if names[i] == *name {
            proof { lemma_first_named_prefix(names@, name@, (i + 1) as int); }
            return Some(i);
        }
        i = i + 1;
    }
    assert(names@.subrange(0, i as int) =~= names@);
    None
}

impl Cmd {
    /// Runs the command against `catalog`. Listing gives every name with
    /// its kind; asking for a type gives the index of the first type with
    /// that name, or `UnknownType` when none has it.
    pub fn run(&self, catalog: &Catalog) -> (r: Result<Output, Error>)
        requires
            catalog.wf(),
        ensures
            match self.sub {
                Sub::List(_) => r matches Ok(Output::Types(es)) && es@.len() == catalog.names@.len()
                    && forall|i: int| 0 <= i < es@.len() ==> (#[trigger] es@[i]).name@ == catalog.names@[i]@
                        && es@[i].kind == spec_kind(catalog.schema.types@[i]),
                Sub::Schema(c) => match first_named(catalog.names@, c.name@) {
                    Some(k) => r matches Ok(Output::Type(j)) && j == k,
                    None => r matches Err(Error::SchemaError(SchemaError::UnknownType(n))) && n@ == c.name@,
                },
            },
    {
        match &self.sub {
            Sub::List(_) => {
                let mut es: Vec<Entry> = Vec::new();
                let mut i: usize = 0;
                while i < catalog.names.len()
                    invariant
                        catalog.wf(),
                        i <= catalog.names@.len(),
                        es@.len() == i,
                        forall|j: int| 0 <= j < i ==> (#[trigger] es@[j]).name@ == catalog.names@[j]@
                            && es@[j].kind == spec_kind(catalog.schema.types@[j]),
                    decreases catalog.names@.len() - i,
                {
                    let name = catalog.names[i].clone();
                    let kind = kind_of(&catalog.schema.types[i]);
                    es.push(Entry { name, kind });
                    i = i + 1;
                }
                Ok(Output::Types(es))
            },
            Sub::Schema(c) => match find_name(&catalog.names, &c.name) {
                Some(k) => Ok(Output::Type(k)),
                None => Err(Error::SchemaError(SchemaError::UnknownType(c.name.clone()))),
            },
        }
    }
}

} // verus!
