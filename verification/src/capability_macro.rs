//! What the `capability` attribute generates from a trait definition.
//!
//! The attribute's arguments and the trait come in as plain values, and a plan comes out: which
//! names are generated and how the adapter from the shared to the local trait calls on.

use vstd::prelude::*;
use vstd::string::*;

use crate::order;
use crate::text;

verus! {

/// `str::to_uppercase`, by name.
pub uninterp spec fn uppercase(s: Seq<char>) -> Seq<char>;

/// `str::to_uppercase`: the Unicode uppercase of the string.
#[verifier::external_body]
fn to_uppercase(s: &str) -> (r: String)
    ensures
        r@ == uppercase(s@),
{
    s.to_uppercase()
}

/// What is wrong with the arguments of the attribute.
#[derive(Debug)]
pub enum ArgsError {
    UnknownAttribute { key: String },
    MissingName,
    MissingDescription,
}

impl ArgsError {
    /// The message of the error.
    pub open spec fn text(&self) -> Seq<char> {
        match *self {
            ArgsError::UnknownAttribute { key } => "unknown attribute `"@ + key@ + "`"@,
            ArgsError::MissingName => "missing `name` attribute"@,
            ArgsError::MissingDescription => "missing `description` attribute"@,
        }
    }

    /// The message of the error.
    pub fn message(&self) -> (r: String)
        ensures
            r@ == self.text(),
    {
        match self {
            ArgsError::UnknownAttribute { key } => text::joined3(
                "unknown attribute `",
                key.as_str(),
                "`",
            ),
            ArgsError::MissingName => String::from_str("missing `name` attribute"),
            ArgsError::MissingDescription => String::from_str("missing `description` attribute"),
        }
    }
}

/// Arguments of the attribute.
#[derive(Debug)]
pub struct CapabilityArgs {
    pub name: String,
    pub description: String,
}

/// The last value that the key was given, if any.
pub open spec fn last_value(pairs: Seq<(String, String)>, key: Seq<char>) -> Option<String>
    decreases pairs.len(),
{
    if pairs.len() == 0 {
        None
    } else if pairs.last().0@ == key {
        Some(pairs.last().1)
    } else {
        last_value(pairs.drop_last(), key)
    }
}

/// The key is one of the two that there are.
pub open spec fn is_known_key(key: Seq<char>) -> bool {
    key == "name"@ || key == "description"@
}

/// The pair at position `i` is the first with an unknown key.
pub open spec fn first_unknown(pairs: Seq<(String, String)>, i: int) -> bool {
    &&& 0 <= i < pairs.len()
    &&& !is_known_key(pairs[i].0@)
    &&& forall|j: int| 0 <= j < i ==> is_known_key((#[trigger] pairs[j]).0@)
}

impl CapabilityArgs {
    /// Reads the arguments in order. A key that is given twice has its last value.
    pub fn parse(pairs: &Vec<(String, String)>) -> (r: Result<Self, ArgsError>)
        ensures
            match r {
                Ok(args) => {
                    &&& forall|i: int|
                        0 <= i < pairs@.len() ==> is_known_key((#[trigger] pairs@[i]).0@)
                    &&& last_value(pairs@, "name"@) == Some(args.name)
                    &&& last_value(pairs@, "description"@) == Some(args.description)
                },
                Err(ArgsError::UnknownAttribute { key }) => exists|i: int| #[trigger]
                    first_unknown(pairs@, i) && key == pairs@[i].0,
                Err(ArgsError::MissingName) => {
                    &&& forall|i: int|
                        0 <= i < pairs@.len() ==> is_known_key((#[trigger] pairs@[i]).0@)
                    &&& last_value(pairs@, "name"@) is None
                },
                Err(ArgsError::MissingDescription) => {
                    &&& forall|i: int|
                        0 <= i < pairs@.len() ==> is_known_key((#[trigger] pairs@[i]).0@)
                    &&& last_value(pairs@, "name"@) is Some
                    &&& last_value(pairs@, "description"@) is None
                },
            },
    {
        let mut name: Option<String> = None;
        let mut description: Option<String> = None;
        let mut i: usize = 0;
        proof {
            reveal_strlit("name");
            reveal_strlit("description");
            assert("name"@.len() != "description"@.len());
        }
        while i < pairs.len()
            invariant
                i <= pairs@.len(),
                "name"@ != "description"@,
                forall|j: int| 0 <= j < i ==> is_known_key((#[trigger] pairs@[j]).0@),
                name == last_value(pairs@.take(i as int), "name"@),
                description == last_value(pairs@.take(i as int), "description"@),
            decreases pairs@.len() - i,
        {
            let key: &String = &pairs[i].0;
            proof {
                assert(pairs@.take(i + 1).drop_last() =~= pairs@.take(i as int));
                assert(pairs@.take(i + 1).last() == pairs@[i as int]);
            }
            if order::str_same(key.as_str(), "name") {
                name = Some(pairs[i].1.clone());
            } else if order::str_same(key.as_str(), "description") {
                description = Some(pairs[i].1.clone());
            } else {
                assert(first_unknown(pairs@, i as int));
                return Err(ArgsError::UnknownAttribute { key: key.clone() });
            }
            i = i + 1;
        }
        assert(pairs@.take(i as int) =~= pairs@);
        match (name, description) {
            (Some(name), Some(description)) => Ok(CapabilityArgs { name, description }),
            (None, _) => Err(ArgsError::MissingName),
            (Some(_), None) => Err(ArgsError::MissingDescription),
        }
    }
}

/// A parameter of a method.
#[derive(Debug)]
pub enum Parameter {
    Receiver,
    /// A plain name.
    Named(String),
    /// Any other pattern.
    Pattern,
}

/// An item of the trait.
#[derive(Debug)]
pub enum TraitItem {
    Method { name: String, is_async: bool, parameters: Vec<Parameter> },
    /// Anything but a method.
    Other,
}

/// A method of the adapter: what it calls, with what, and whether it awaits the result.
#[derive(Debug)]
pub struct AdapterMethod {
    pub name: String,
    pub arguments: Vec<String>,
    pub awaits: bool,
}

/// What is generated.
#[derive(Debug)]
pub struct CapabilityPlan {
    pub trait_name: String,
    pub name: String,
    pub description: String,
    /// Whether the traits and the adapter need the attribute for asynchronous methods.
    pub has_async: bool,
    pub adapter: Vec<AdapterMethod>,
    /// The name of the entry in the list of known capabilities.
    pub known_static: String,
}

/// The names among the parameters, in order.
pub open spec fn names_of(parameters: Seq<Parameter>) -> Seq<Seq<char>>
    decreases parameters.len(),
{
    if parameters.len() == 0 {
        Seq::empty()
    } else {
        let rest = names_of(parameters.drop_last());
        match parameters.last() {
            Parameter::Named(name) => rest.push(name@),
            _ => rest,
        }
    }
}

/// The names among the parameters, in order.
pub fn extract_param_names(parameters: &Vec<Parameter>) -> (r: Vec<String>)
    ensures
        order::views(r@) == names_of(parameters@),
{
    let mut r: Vec<String> = Vec::new();
    let mut i: usize = 0;
    assert(order::views(r@) =~= names_of(parameters@.take(0)));
    while i < parameters.len()
        invariant
            i <= parameters@.len(),
            order::views(r@) == names_of(parameters@.take(i as int)),
        decreases parameters@.len() - i,
    {
        let ghost before = r@;
        proof {
            assert(parameters@.take(i + 1).drop_last() =~= parameters@.take(i as int));
            assert(parameters@.take(i + 1).last() == parameters@[i as int]);
        }
        match &parameters[i] {
            Parameter::Named(name) => {
                r.push(name.clone());
                assert(order::views(r@) =~= order::views(before).push(name@));
            },
            _ => {},
        }
        i = i + 1;
    }
    assert(parameters@.take(i as int) =~= parameters@);
    r
}

/// The method of the adapter that calls the method of the trait on.
pub open spec fn calls_on(m: AdapterMethod, item: TraitItem) -> bool {
    item matches TraitItem::Method { name, is_async, parameters } && m.name == name && m.awaits
        == is_async && order::views(m.arguments@) == names_of(parameters@)
}

/// The methods among the items.
pub open spec fn methods_of(items: Seq<TraitItem>) -> Seq<TraitItem>
    decreases items.len(),
{
    if items.len() == 0 {
        Seq::empty()
    } else {
        let rest = methods_of(items.drop_last());
        if items.last() is Method {
            rest.push(items.last())
        } else {
            rest
        }
    }
}

/// The item is an asynchronous method.
pub open spec fn is_async_method(item: TraitItem) -> bool {
    item matches TraitItem::Method { is_async, .. } && is_async
}

/// The name of the entry in the list of known capabilities, from the trait's name in
/// uppercase.
pub fn known_static_name(upper: &str) -> (r: String)
    ensures
        r@ == "_KNOWN_CAP_"@ + upper@,
{
    text::joined2("_KNOWN_CAP_", upper)
}

/// Plans what is generated for the trait.
pub fn generate(args: CapabilityArgs, trait_name: &str, items: &Vec<TraitItem>) -> (r:
    CapabilityPlan)
    ensures
        r.trait_name@ == trait_name@,
        r.name == args.name,
        r.description == args.description,
        r.has_async == exists|i: int|
            0 <= i < items@.len() && is_async_method(#[trigger] items@[i]),
        r.adapter@.len() == methods_of(items@).len(),
        forall|i: int|
            0 <= i < r.adapter@.len() ==> calls_on(
                #[trigger] r.adapter@[i],
                methods_of(items@)[i],
            ),
        r.known_static@ == "_KNOWN_CAP_"@ + uppercase(trait_name@),
{
    let mut has_async: bool = false;
    let mut adapter: Vec<AdapterMethod> = Vec::new();
    let mut i: usize = 0;
    assert(items@.take(0) =~= Seq::<TraitItem>::empty());
    while i < items.len()
        invariant
            i <= items@.len(),
            has_async == exists|j: int| 0 <= j < i && is_async_method(#[trigger] items@[j]),
            adapter@.len() == methods_of(items@.take(i as int)).len(),
            forall|j: int|
                0 <= j < adapter@.len() ==> calls_on(
                    #[trigger] adapter@[j],
                    methods_of(items@.take(i as int))[j],
                ),
        decreases items@.len() - i,
    {
        let ghost before = methods_of(items@.take(i as int));
        proof {
            assert(items@.take(i + 1).drop_last() =~= items@.take(i as int));
            assert(items@.take(i + 1).last() == items@[i as int]);
        }
        match &items[i] {
            TraitItem::Method { name, is_async, parameters } => {
                let arguments: Vec<String> = extract_param_names(parameters);
                adapter.push(AdapterMethod { name: name.clone(), arguments, awaits: *is_async });
                if *is_async {
                    assert(is_async_method(items@[i as int]));
                    has_async = true;
                }
                assert(methods_of(items@.take(i + 1)) == before.push(items@[i as int]));
            },
            TraitItem::Other => {},
        }
        i = i + 1;
    }
    assert(items@.take(i as int) =~= items@);
    let upper: String = to_uppercase(trait_name);
    CapabilityPlan {
        trait_name: String::from_str(trait_name),
        name: args.name,
        description: args.description,
        has_async,
        adapter,
        known_static: known_static_name(upper.as_str()),
    }
}

/// A key has the value of the last pair that gives it one.
pub proof fn last_value_counts(pairs: Seq<(String, String)>, key: Seq<char>, i: int)
    requires
        0 <= i < pairs.len(),
        pairs[i].0@ == key,
        forall|j: int| i < j < pairs.len() ==> (#[trigger] pairs[j]).0@ != key,
    ensures
        last_value(pairs, key) == Some(pairs[i].1),
    decreases pairs.len(),
{
    if i < pairs.len() - 1 {
        assert(pairs[pairs.len() - 1].0@ != key);
        last_value_counts(pairs.drop_last(), key, i);
    }
}

/// A key that no pair gives a value has none.
pub proof fn missing_key_has_no_value(pairs: Seq<(String, String)>, key: Seq<char>)
    requires
        forall|j: int| 0 <= j < pairs.len() ==> (#[trigger] pairs[j]).0@ != key,
    ensures
        last_value(pairs, key) is None,
    decreases pairs.len(),
{
    if pairs.len() > 0 {
        assert(pairs[pairs.len() - 1].0@ != key);
        missing_key_has_no_value(pairs.drop_last(), key);
    }
}

/// The names of two lists of parameters are those of the first, then those of the second. A
/// plain name counts, a receiver or another pattern does not.
pub proof fn plain_names_count_in_order(a: Seq<Parameter>, b: Seq<Parameter>, name: String)
    ensures
        names_of(a + b) == names_of(a) + names_of(b),
        names_of(seq![Parameter::Named(name)]) == seq![name@],
        names_of(seq![Parameter::Receiver]).len() == 0,
        names_of(seq![Parameter::Pattern]).len() == 0,
    decreases b.len(),
{
    reveal_with_fuel(names_of, 2);
    assert(seq![Parameter::Named(name)].drop_last() =~= Seq::<Parameter>::empty());
    assert(seq![Parameter::Receiver].drop_last() =~= Seq::<Parameter>::empty());
    assert(seq![Parameter::Pattern].drop_last() =~= Seq::<Parameter>::empty());
    assert(names_of(seq![Parameter::Named(name)]) =~= seq![name@]);
    if b.len() == 0 {
        assert(a + b =~= a);
        assert(names_of(a) + names_of(b) =~= names_of(a));
    } else {
        let front = b.drop_last();
        plain_names_count_in_order(a, front, name);
        assert((a + b).drop_last() =~= a + front);
        assert(names_of(a + b) =~= names_of(a) + names_of(b));
    }
}

/// The methods of two lists of items are those of the first, then those of the second, and
/// anything but a method is left out.
pub proof fn methods_count_in_order(a: Seq<TraitItem>, b: Seq<TraitItem>, item: TraitItem)
    ensures
        methods_of(a + b) == methods_of(a) + methods_of(b),
        item is Method ==> methods_of(seq![item]) == seq![item],
        item is Other ==> methods_of(seq![item]).len() == 0,
    decreases b.len(),
{
    reveal_with_fuel(methods_of, 2);
    assert(seq![item].drop_last() =~= Seq::<TraitItem>::empty());
    if item is Method {
        assert(methods_of(seq![item]) =~= seq![item]);
    }
    if b.len() == 0 {
        assert(a + b =~= a);
        assert(methods_of(a) + methods_of(b) =~= methods_of(a));
    } else {
        let front = b.drop_last();
        methods_count_in_order(a, front, item);
        assert((a + b).drop_last() =~= a + front);
        assert(methods_of(a + b) =~= methods_of(a) + methods_of(b));
    }
}

} // verus!
