//! What a user configures for an extension.

use vstd::prelude::*;
use vstd::string::*;

use crate::order;

verus! {

/// A configuration value. A number is kept as it was written.
#[derive(Debug)]
pub enum ConfigValue {
    Null,
    Bool(bool),
    Number(String),
    Text(String),
    List(Vec<ConfigValue>),
    Object(Vec<(String, ConfigValue)>),
}

/// `b` has the keys of `a` in their order, and `mask` for every value.
pub open spec fn values_masked(
    a: Seq<(String, ConfigValue)>,
    b: Seq<(String, ConfigValue)>,
    mask: Seq<char>,
) -> bool {
    &&& a.len() == b.len()
    &&& forall|i: int|
        0 <= i < a.len() ==> (#[trigger] b[i]).0@ == a[i].0@ && (b[i].1 matches ConfigValue::Text(
            t,
        ) && t@ == mask)
}

/// `b` is `a` with `mask` in place of every value under any `headers` object.
pub open spec fn headers_masked(a: ConfigValue, b: ConfigValue, mask: Seq<char>) -> bool
    decreases a,
{
    match (a, b) {
        (ConfigValue::Null, ConfigValue::Null) => true,
        (ConfigValue::Bool(x), ConfigValue::Bool(y)) => x == y,
        (ConfigValue::Number(x), ConfigValue::Number(y)) => x@ == y@,
        (ConfigValue::Text(x), ConfigValue::Text(y)) => x@ == y@,
        (ConfigValue::List(x), ConfigValue::List(y)) => {
            &&& x@.len() == y@.len()
            &&& forall|i: int|
                0 <= i < x@.len() ==> headers_masked(x@[i], #[trigger] y@[i], mask)
        },
        (ConfigValue::Object(x), ConfigValue::Object(y)) => {
            &&& x@.len() == y@.len()
            &&& forall|i: int|
                0 <= i < x@.len() ==> {
                    &&& (#[trigger] y@[i]).0@ == x@[i].0@
                    &&& if x@[i].0@ == "headers"@ && x@[i].1 is Object {
                        y@[i].1 is Object && values_masked(x@[i].1->Object_0@, y@[i].1->Object_0@, mask)
                    } else {
                        headers_masked(x@[i].1, y@[i].1, mask)
                    }
                }
        },
        _ => false,
    }
}

/// Keeps the keys and puts the mask in place of every value.
fn mask_values(fields: &Vec<(String, ConfigValue)>, mask: &str) -> (r: Vec<(String, ConfigValue)>)
    ensures
        values_masked(fields@, r@, mask@),
{
    let mut r: Vec<(String, ConfigValue)> = Vec::new();
    let mut i: usize = 0;
    while i < fields.len()
        invariant
            i <= fields@.len(),
            r@.len() == i,
            values_masked(fields@.take(i as int), r@, mask@),
        decreases fields@.len() - i,
    {
        r.push((fields[i].0.clone(), ConfigValue::Text(String::from_str(mask))));
        i = i + 1;
    }
    assert(fields@.take(i as int) =~= fields@);
    r
}

/// A copy with the mask in place of every value under any `headers` object.
pub fn redact_secret_headers(value: &ConfigValue, mask: &str) -> (r: ConfigValue)
    ensures
        headers_masked(*value, r, mask@),
    decreases value,
{
    match value {
        ConfigValue::Null => ConfigValue::Null,
        ConfigValue::Bool(b) => ConfigValue::Bool(*b),
        ConfigValue::Number(n) => ConfigValue::Number(n.clone()),
        ConfigValue::Text(t) => ConfigValue::Text(t.clone()),
        ConfigValue::List(items) => {
            let mut out: Vec<ConfigValue> = Vec::new();
            let mut i: usize = 0;
            while i < items.len()
                invariant
                    i <= items@.len(),
                    decreases_to!(value => items@),
                    out@.len() == i,
                    forall|j: int|
                        0 <= j < i ==> headers_masked(items@[j], #[trigger] out@[j], mask@),
                decreases items@.len() - i,
            {
                let item: ConfigValue = redact_secret_headers(&items[i], mask);
                out.push(item);
                i = i + 1;
            }
            ConfigValue::List(out)
        },
        ConfigValue::Object(fields) => {
            let mut out: Vec<(String, ConfigValue)> = Vec::new();
            let mut i: usize = 0;
            while i < fields.len()
                invariant
                    i <= fields@.len(),
                    decreases_to!(value => fields@),
                    out@.len() == i,
                    forall|j: int|
                        0 <= j < i ==> {
                            &&& (#[trigger] out@[j]).0@ == fields@[j].0@
                            &&& if fields@[j].0@ == "headers"@ && fields@[j].1 is Object {
                                out@[j].1 is Object && values_masked(
                                    fields@[j].1->Object_0@,
                                    out@[j].1->Object_0@,
                                    mask@,
                                )
                            } else {
                                headers_masked(fields@[j].1, out@[j].1, mask@)
                            }
                        },
                decreases fields@.len() - i,
            {
                let name: String = fields[i].0.clone();
                let redacted: ConfigValue = match &fields[i].1 {
                    ConfigValue::Object(inner) if order::str_same(name.as_str(), "headers") => {
                        ConfigValue::Object(mask_values(inner, mask))
                    },
                    other => redact_secret_headers(other, mask),
                };
                out.push((name, redacted));
                i = i + 1;
            }
            ConfigValue::Object(out)
        },
    }
}

/// User configuration for an extension instance.
#[derive(Debug)]
pub struct ExtensionUserConfig {
    /// Names the plugin to use.
    pub urn: String,
    pub description: Option<String>,
    /// Configuration that the extension itself reads.
    pub config: ConfigValue,
    /// Capability dependencies: a capability and the extension that provides it.
    pub capabilities: Vec<(String, String)>,
}

fn copy_bindings(bindings: &Vec<(String, String)>) -> (r: Vec<(String, String)>)
    ensures
        r@ == bindings@,
{
    let mut r: Vec<(String, String)> = Vec::new();
    let mut i: usize = 0;
    while i < bindings.len()
        invariant
            i <= bindings@.len(),
            r@ == bindings@.take(i as int),
        decreases bindings@.len() - i,
    {
        r.push((bindings[i].0.clone(), bindings[i].1.clone()));
        i = i + 1;
        assert(r@ =~= bindings@.take(i as int));
    }
    assert(bindings@.take(i as int) =~= bindings@);
    r
}

impl ExtensionUserConfig {
    /// A configuration of that plugin with that value.
    pub fn new(urn: String, config: ConfigValue) -> (r: Self)
        ensures
            r.urn == urn,
            r.config == config,
            r.description is None,
            r.capabilities@.len() == 0,
    {
        ExtensionUserConfig { urn, description: None, config, capabilities: Vec::new() }
    }

    /// A configuration of that plugin with a null value.
    pub fn with_type(urn: &str) -> (r: Self)
        ensures
            r.urn@ == urn@,
            r.config is Null,
            r.description is None,
            r.capabilities@.len() == 0,
    {
        Self::new(String::from_str(urn), ConfigValue::Null)
    }

    /// A copy for display, with `mask` in place of every value under any `headers` object.
    pub fn redacted_for_snapshot(&self, mask: &str) -> (r: ExtensionUserConfig)
        ensures
            r.urn == self.urn,
            r.description == self.description,
            r.capabilities@ == self.capabilities@,
            headers_masked(self.config, r.config, mask@),
    {
        ExtensionUserConfig {
            urn: self.urn.clone(),
            description: match &self.description {
                Some(d) => Some(d.clone()),
                None => None,
            },
            config: redact_secret_headers(&self.config, mask),
            capabilities: copy_bindings(&self.capabilities),
        }
    }
}

/// The extensions of one scope by their identifiers.
#[derive(Debug)]
pub struct PipelineExtensions {
    entries: Vec<(String, ExtensionUserConfig)>,
}

/// The row at position `i` declares the extension.
pub open spec fn declares_at(
    rows: Seq<(String, ExtensionUserConfig)>,
    i: int,
    id: Seq<char>,
) -> bool {
    0 <= i < rows.len() && rows[i].0@ == id
}

/// Some row declares the extension.
pub open spec fn declares(rows: Seq<(String, ExtensionUserConfig)>, id: Seq<char>) -> bool {
    exists|i: int| #[trigger] declares_at(rows, i, id)
}

impl PipelineExtensions {
    pub closed spec fn rows(&self) -> Seq<(String, ExtensionUserConfig)> {
        self.entries@
    }

    /// No extension is declared twice.
    pub open spec fn wf(&self) -> bool {
        forall|i: int, j: int|
            0 <= i < j < self.rows().len() ==> (#[trigger] self.rows()[i]).0@ != (
            #[trigger] self.rows()[j]).0@
    }

    /// No extensions.
    pub fn new() -> (r: Self)
        ensures
            r.wf(),
            r.rows().len() == 0,
    {
        PipelineExtensions { entries: Vec::new() }
    }

    pub fn len(&self) -> (n: usize)
        ensures
            n == self.rows().len(),
    {
        self.entries.len()
    }

    pub fn at(&self, i: usize) -> (r: &(String, ExtensionUserConfig))
        requires
            i < self.rows().len(),
        ensures
            *r == self.rows()[i as int],
    {
        &self.entries[i]
    }

    /// The position of the extension's declaration.
    pub fn position(&self, id: &str) -> (r: Option<usize>)
        ensures
            match r {
                Some(i) => declares_at(self.rows(), i as int, id@),
                None => !declares(self.rows(), id@),
            },
    {
        let mut i: usize = 0;
        while i < self.entries.len()
            invariant
                i <= self.rows().len(),
                forall|j: int| 0 <= j < i ==> !#[trigger] declares_at(self.rows(), j, id@),
            decreases self.rows().len() - i,
        {
            if order::str_same(self.entries[i].0.as_str(), id) {
                assert(declares_at(self.rows(), i as int, id@));
                return Some(i);
            }
            i = i + 1;
        }
        None
    }

    pub fn contains_key(&self, id: &str) -> (r: bool)
        ensures
            r == declares(self.rows(), id@),
    {
        self.position(id).is_some()
    }

    /// Declares an extension, in place of an earlier declaration of it.
    pub fn insert(&mut self, id: String, config: ExtensionUserConfig)
        requires
            old(self).wf(),
        ensures
            final(self).wf(),
            if declares(old(self).rows(), id@) {
                exists|i: int| #[trigger]
                    declares_at(old(self).rows(), i, id@) && final(self).rows()
                        == old(self).rows().update(i, (id, config))
            } else {
                final(self).rows() == old(self).rows().push((id, config))
            },
    {
        match self.position(id.as_str()) {
            Some(i) => {
                let ghost before = self.rows();
                self.entries.set(i, (id, config));
                assert(self.rows() =~= before.update(i as int, (id, config)));
                assert(declares_at(before, i as int, id@));
            },
            None => {
                proof {
                    assert forall|j: int| 0 <= j < self.rows().len() implies (
                    #[trigger] self.rows()[j]).0@ != id@ by {
                        assert(!declares_at(self.rows(), j, id@));
                    }
                }
                self.entries.push((id, config));
            },
        }
    }
}

impl ConfigValue {
    /// The value at that place in a list or in an object.
    pub open spec fn child(self, i: int) -> Option<ConfigValue> {
        match self {
            ConfigValue::List(items) => if 0 <= i < items@.len() {
                Some(items@[i])
            } else {
                None
            },
            ConfigValue::Object(fields) => if 0 <= i < fields@.len() {
                Some(fields@[i].1)
            } else {
                None
            },
            _ => None,
        }
    }

    /// The value that the places lead to, one inside the other.
    pub open spec fn at(self, path: Seq<int>) -> Option<ConfigValue>
        decreases path.len(),
    {
        if path.len() == 0 {
            Some(self)
        } else {
            match self.child(path[0]) {
                Some(v) => v.at(path.skip(1)),
                None => None,
            }
        }
    }

    /// The field at that place is an object of the name `headers`.
    pub open spec fn has_headers_at(self, i: int) -> bool {
        self matches ConfigValue::Object(fields) && 0 <= i < fields@.len() && fields@[i].0@
            == "headers"@ && fields@[i].1 is Object
    }

    /// The places lead through no `headers` object.
    pub open spec fn beside_headers(self, path: Seq<int>) -> bool
        decreases path.len(),
    {
        path.len() > 0 ==> !self.has_headers_at(path[0]) && match self.child(path[0]) {
            Some(v) => v.beside_headers(path.skip(1)),
            None => true,
        }
    }
}

proof fn lemma_masked_at(a: ConfigValue, b: ConfigValue, mask: Seq<char>, path: Seq<int>)
    requires
        headers_masked(a, b, mask),
        a.beside_headers(path),
        a.at(path) is Some,
    ensures
        b.at(path) is Some,
        headers_masked(a.at(path)->0, b.at(path)->0, mask),
    decreases path.len(),
{
    if path.len() > 0 {
        let i = path[0];
        let x = a.child(i)->0;
        let y = b.child(i)->0;
        assert(b.child(i) is Some && headers_masked(x, y, mask));
        lemma_masked_at(x, y, mask, path.skip(1));
    }
}

/// No value of a header is shown: wherever a `headers` object stands, the copy has the same
/// names there, and the mask in place of every value.
pub proof fn header_values_are_masked(
    a: ConfigValue,
    b: ConfigValue,
    mask: Seq<char>,
    path: Seq<int>,
    i: int,
    k: int,
)
    requires
        headers_masked(a, b, mask),
        a.beside_headers(path),
        a.at(path) matches Some(x) && x.has_headers_at(i) && 0 <= k
            < x->Object_0@[i].1->Object_0@.len(),
    ensures
        b.at(path) matches Some(y) && y.has_headers_at(i) && {
            let before = a.at(path)->0->Object_0@[i].1->Object_0@;
            let after = y->Object_0@[i].1->Object_0@;
            &&& after.len() == before.len()
            &&& after[k].0@ == before[k].0@
            &&& after[k].1 is Text
            &&& after[k].1->Text_0@ == mask
        },
{
    lemma_masked_at(a, b, mask, path);
}

/// Everything beside the `headers` objects is shown as it is.
pub proof fn all_else_is_kept(a: ConfigValue, b: ConfigValue, mask: Seq<char>, path: Seq<int>)
    requires
        headers_masked(a, b, mask),
        a.beside_headers(path),
        a.at(path) is Some,
    ensures
        b.at(path) matches Some(y) && match a.at(path)->0 {
            ConfigValue::Null => y is Null,
            ConfigValue::Bool(t) => y == ConfigValue::Bool(t),
            ConfigValue::Number(t) => y is Number && y->Number_0@ == t@,
            ConfigValue::Text(t) => y is Text && y->Text_0@ == t@,
            ConfigValue::List(items) => y is List && y->List_0@.len() == items@.len(),
            ConfigValue::Object(fields) => y is Object && y->Object_0@.len() == fields@.len()
                && forall|k: int|
                0 <= k < fields@.len() ==> (#[trigger] y->Object_0@[k]).0@ == fields@[k].0@,
        },
{
    lemma_masked_at(a, b, mask, path);
}

} // verus!
