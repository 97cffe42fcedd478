use vstd::prelude::*;
use vstd::string::StringExecFns;

use vstd::pervasive::VecAdditionalExecFns;

use crate::text::{emit_document, emit_document_string, parse_doc_spec, parse_document};
use crate::value::{
    distinct_keys, first_key_index, lemma_first_key_index, table_find_key, table_has_key,
    table_upsert, Field, FieldModel, Table, Value, ValueModel,
};

verus! {

/// A configuration-time error of the decode path.  All variants are
/// synchronous and non-retryable; `message` renders the single descriptive
/// text surfaced to the caller.
#[derive(Debug)]
pub enum ConfigError {
    /// The reserved `type` key is absent, or its value is not a string.
    MissingTypeField,
    /// No registry entry matches the extracted discriminator.
    UnrecognizedType(String),
    /// The discriminator matched, but the variant's own decoder rejected the
    /// fragment; the second component is the variant's error text, verbatim.
    FailedToParseType(String, String),
}

/// The mathematical model of a `ConfigError`.
pub enum ConfigErrorModel {
    MissingTypeField,
    UnrecognizedType(Seq<char>),
    FailedToParseType(Seq<char>, Seq<char>),
}

impl DeepView for ConfigError {
    type V = ConfigErrorModel;

    open spec fn deep_view(&self) -> ConfigErrorModel {
        match self {
            ConfigError::MissingTypeField => ConfigErrorModel::MissingTypeField,
            ConfigError::UnrecognizedType(tag) => ConfigErrorModel::UnrecognizedType(tag@),
            ConfigError::FailedToParseType(tag, cause) => ConfigErrorModel::FailedToParseType(
                tag@,
                cause@,
            ),
        }
    }
}

/// The text of a configuration error, at the level of models.
pub open spec fn error_message(e: ConfigErrorModel) -> Seq<char> {
    match e {
        ConfigErrorModel::MissingTypeField => "missing type field"@,
        ConfigErrorModel::UnrecognizedType(tag) => "unrecognized type '"@ + tag + "'"@,
        ConfigErrorModel::FailedToParseType(tag, cause) => "failed to parse type `"@ + tag
            + "`: "@ + cause,
    }
}

impl ConfigError {
    /// The single descriptive message surfaced to the caller of decode.
    pub fn message(&self) -> (r: String)
        ensures
            r@ == error_message(self.deep_view()),
    {
        match self {
            ConfigError::MissingTypeField => "missing type field".to_owned(),
            ConfigError::UnrecognizedType(tag) => {
                let mut s = "unrecognized type '".to_owned();
                s.append(tag.as_str());
                s.append("'");
                proof {
                    assert(s@ =~= error_message(self.deep_view()));
                }
                s
            },
            ConfigError::FailedToParseType(tag, cause) => {
                let mut s = "failed to parse type `".to_owned();
                s.append(tag.as_str());
                s.append("`: ");
                s.append(cause.as_str());
                proof {
                    assert(s@ =~= error_message(self.deep_view()));
                }
                s
            },
        }
    }
}

/// The result of tag extraction: the discriminator pulled out of the reserved
/// `type` field, and the remaining fields repackaged as a nested fragment.
pub struct ConfigSwapOut {
    pub type_str: String,
    pub nested: Table,
}

/// The mathematical model of a `ConfigSwapOut`.
#[verifier::ext_equal]
pub struct ConfigSwapOutModel {
    pub type_str: Seq<char>,
    pub nested: Seq<FieldModel>,
}

impl DeepView for ConfigSwapOut {
    type V = ConfigSwapOutModel;

    open spec fn deep_view(&self) -> ConfigSwapOutModel {
        ConfigSwapOutModel { type_str: self.type_str@, nested: self.nested.deep_view() }
    }
}

/// Tag extraction over models: walk the fields in document order; a `type`
/// key sets the discriminator (to the empty sequence when its value is not a
/// string); every other field is inserted into the fragment as into a map,
/// so a later binding of a key overwrites the earlier one in place.
pub open spec fn extract_spec(t: Seq<FieldModel>) -> (Seq<char>, Seq<FieldModel>)
    decreases t.len(),
{
    if t.len() == 0 {
        (Seq::<char>::empty(), Seq::<FieldModel>::empty())
    } else {
        let prev = extract_spec(t.drop_last());
        let f = t.last();
        if f.key == "type"@ {
            match f.value {
                ValueModel::Str(s) => (s, prev.1),
                ValueModel::Bool(_) => (Seq::<char>::empty(), prev.1),
            }
        } else {
            (prev.0, table_upsert(prev.1, f))
        }
    }
}

impl ConfigSwapOut {
    /// An empty extraction result: no discriminator, no fields.
    pub fn new() -> (r: ConfigSwapOut)
        ensures
            r.deep_view() == (ConfigSwapOutModel {
                type_str: Seq::<char>::empty(),
                nested: Seq::<FieldModel>::empty(),
            }),
    {
        let r = ConfigSwapOut { type_str: String::new(), nested: Vec::new() };
        proof {
            assert(r.deep_view().nested =~= Seq::<FieldModel>::empty());
            assert(r.deep_view() =~= ConfigSwapOutModel {
                type_str: Seq::<char>::empty(),
                nested: Seq::<FieldModel>::empty(),
            });
        }
        r
    }

    /// Pull the reserved `type` field out of `t`.  Fails exactly when the
    /// extracted discriminator comes out empty: a missing `type` key and a
    /// `type` key with a non-string value are indistinguishable by design.
    pub fn from_table(t: &Table) -> (r: Result<ConfigSwapOut, ConfigError>)
        ensures
            match r {
                Ok(sw) => extract_spec(t.deep_view()).0.len() > 0 && sw.deep_view()
                    == (ConfigSwapOutModel {
                    type_str: extract_spec(t.deep_view()).0,
                    nested: extract_spec(t.deep_view()).1,
                }),
                Err(e) => extract_spec(t.deep_view()).0.len() == 0 && e.deep_view()
                    == ConfigErrorModel::MissingTypeField,
            },
    {
        let type_key: String = "type".to_owned();
        let mut type_str: String = String::new();
        let mut nested: Vec<Field> = Vec::new();
        let mut i: usize = 0;
        while i < t.len()
            invariant
                0 <= i <= t.len(),
                type_key@ == "type"@,
                extract_spec(t.deep_view().take(i as int)) == (type_str@, nested.deep_view()),
            decreases t.len() - i,
        {
            let f = &t[i];
            proof {
                assert(t.deep_view().take(i + 1).drop_last() =~= t.deep_view().take(i as int));
                assert(t.deep_view().take(i + 1).last() == t.deep_view()[i as int]);
            }
            if f.key == type_key {
                match &f.value {
                    Value::Str(s) => {
                        type_str = s.clone();
                    },
                    Value::Bool(_) => {
                        type_str = String::new();
                    },
                }
            } else {
                let ghost nested0 = nested.deep_view();
                match table_find_key(&nested, &f.key) {
                    Some(p) => {
                        nested.set(p, f.clone());
                    },
                    None => {
                        nested.push(f.clone());
                    },
                }
                proof {
                    assert(nested.deep_view() =~= table_upsert(nested0, t.deep_view()[i as int]));
                }
            }
            i = i + 1;
        }
        proof {
            assert(t.deep_view().take(t.deep_view().len() as int) =~= t.deep_view());
        }
        if type_str.as_str().is_empty() {
            Err(ConfigError::MissingTypeField)
        } else {
            Ok(ConfigSwapOut { type_str, nested })
        }
    }
}

/// The capability family's factory: one value per registered variant, able
/// to construct a capability instance from a configuration fragment and to
/// produce a canonical default fragment for documentation.
pub trait Factory: Sized {
    type Component: DeepView;

    /// What `from_value` returns, at the level of models.
    spec fn from_value_spec(&self, t: Seq<FieldModel>) -> Result<
        <Self::Component as DeepView>::V,
        Seq<char>,
    >;

    /// What `default_value` returns, at the level of models.
    spec fn default_value_spec(&self) -> Result<Seq<FieldModel>, Seq<char>>;

    /// Construct a capability instance from the nested fragment `t`.
    fn from_value(&self, t: &Table) -> (r: Result<Self::Component, String>)
        ensures
            (match r {
                Ok(c) => self.from_value_spec(t.deep_view()) is Ok && c.deep_view()
                    == self.from_value_spec(t.deep_view())->Ok_0,
                Err(e) => self.from_value_spec(t.deep_view()) is Err && e@
                    == self.from_value_spec(t.deep_view())->Err_0,
            }),
    ;

    /// Produce a canonical configuration fragment for this variant.
    fn default_value(&self) -> (r: Result<Table, String>)
        ensures
            (match r {
                Ok(t) => self.default_value_spec() is Ok && t.deep_view()
                    == self.default_value_spec()->Ok_0,
                Err(e) => self.default_value_spec() is Err && e@
                    == self.default_value_spec()->Err_0,
            }),
    ;
}

/// A registry entry: an immutable record associating a discriminator string
/// with the factory of one variant.
pub struct ComponentBuilder<F> {
    pub name: String,
    pub factory: F,
}

/// The mathematical model of a `ComponentBuilder`.
#[verifier::ext_equal]
pub struct ComponentBuilderModel<F> {
    pub name: Seq<char>,
    pub factory: F,
}

impl<F> DeepView for ComponentBuilder<F> {
    type V = ComponentBuilderModel<F>;

    open spec fn deep_view(&self) -> ComponentBuilderModel<F> {
        ComponentBuilderModel { name: self.name@, factory: self.factory }
    }
}

impl<F> ComponentBuilder<F> {
    pub fn new(name: String, factory: F) -> (r: Self)
        ensures
            r.deep_view() == (ComponentBuilderModel { name: name@, factory }),
    {
        ComponentBuilder { name, factory }
    }
}

/// The index of the first entry whose discriminator equals `tag`, if any:
/// lookups scan in registration order and the first match wins.
pub open spec fn lookup_spec<F>(
    entries: Seq<ComponentBuilderModel<F>>,
    tag: Seq<char>,
) -> Option<int>
    decreases entries.len(),
{
    if entries.len() == 0 {
        None
    } else if entries[0].name == tag {
        Some(0)
    } else {
        match lookup_spec(entries.drop_first(), tag) {
            None => None,
            Some(i) => Some(i + 1),
        }
    }
}

/// `lookup_spec` finds exactly the first entry named `tag`.
pub proof fn lemma_lookup_spec<F>(entries: Seq<ComponentBuilderModel<F>>, tag: Seq<char>)
    ensures
        match lookup_spec(entries, tag) {
            Some(i) => 0 <= i < entries.len() && entries[i].name == tag && (forall|j: int|
                0 <= j < i ==> entries[j].name != tag),
            None => forall|j: int| 0 <= j < entries.len() ==> entries[j].name != tag,
        },
    decreases entries.len(),
{
    if entries.len() == 0 {
    } else if entries[0].name == tag {
    } else {
        lemma_lookup_spec(entries.drop_first(), tag);
        assert(forall|j: int|
            1 <= j < entries.len() ==> entries[j] == entries.drop_first()[j - 1]);
    }
}

/// A per-family registry: an append-only collection of entries, populated
/// before the first lookup and queried by linear scan thereafter.
pub struct Registry<F> {
    entries: Vec<ComponentBuilder<F>>,
}

impl<F> DeepView for Registry<F> {
    type V = Seq<ComponentBuilderModel<F>>;

    closed spec fn deep_view(&self) -> Seq<ComponentBuilderModel<F>> {
        self.entries.deep_view()
    }
}

impl<F> Registry<F> {
    /// An empty registry: no variant is known yet.
    pub fn new() -> (r: Self)
        ensures
            r.deep_view() == Seq::<ComponentBuilderModel<F>>::empty(),
    {
        let r = Registry { entries: Vec::new() };
        proof {
            assert(r.deep_view() =~= Seq::<ComponentBuilderModel<F>>::empty());
        }
        r
    }

    /// Append one entry.  Existing entries are never replaced: a duplicate
    /// discriminator is permitted, and lookups keep preferring the entry
    /// registered first.
    pub fn register(&mut self, b: ComponentBuilder<F>)
        ensures
            final(self).deep_view() == old(self).deep_view().push(b.deep_view()),
    {
        let ghost bv = b.deep_view();
        self.entries.push(b);
        proof {
            assert(self.deep_view() =~= old(self).deep_view().push(bv));
        }
    }

    /// How many entries have been registered.
    pub fn len(&self) -> (n: usize)
        ensures
            n == self.deep_view().len(),
    {
        self.entries.len()
    }
}

/// The generic configuration wrapper: the constructed capability instance
/// together with the retained tag-extraction result, kept for re-encoding.
pub struct ComponentConfig<F: Factory> {
    swap_out: ConfigSwapOut,
    pub condition: F::Component,
}

/// The mathematical model of a `ComponentConfig`.
#[verifier::ext_equal]
pub struct ComponentConfigModel<CV> {
    pub type_str: Seq<char>,
    pub nested: Seq<FieldModel>,
    pub condition: CV,
}

impl<F: Factory> DeepView for ComponentConfig<F> {
    type V = ComponentConfigModel<<F::Component as DeepView>::V>;

    closed spec fn deep_view(&self) -> ComponentConfigModel<<F::Component as DeepView>::V> {
        ComponentConfigModel {
            type_str: self.swap_out.type_str@,
            nested: self.swap_out.nested.deep_view(),
            condition: self.condition.deep_view(),
        }
    }
}

impl<F: Factory> ComponentConfig<F> {
    /// The retained discriminator.
    pub fn type_str(&self) -> (r: &String)
        ensures
            r@ == self.deep_view().type_str,
    {
        &self.swap_out.type_str
    }

    /// The retained nested fragment.
    pub fn nested(&self) -> (r: &Table)
        ensures
            r.deep_view() == self.deep_view().nested,
    {
        &self.swap_out.nested
    }

    /// The constructed capability instance; it agrees with the model of the
    /// wrapper.
    pub fn condition(&self) -> (r: &F::Component)
        ensures
            r.deep_view() == self.deep_view().condition,
    {
        &self.condition
    }
}

/// Decoding over models: extract the tag, look the discriminator up, run the
/// matched factory on the fragment, and compose errors exactly as the decode
/// contract states them.
pub open spec fn decode_spec<F: Factory>(
    entries: Seq<ComponentBuilderModel<F>>,
    t: Seq<FieldModel>,
) -> Result<ComponentConfigModel<<F::Component as DeepView>::V>, ConfigErrorModel> {
    let tag = extract_spec(t).0;
    let frag = extract_spec(t).1;
    if tag.len() == 0 {
        Err(ConfigErrorModel::MissingTypeField)
    } else {
        match lookup_spec(entries, tag) {
            None => Err(ConfigErrorModel::UnrecognizedType(tag)),
            Some(i) => match entries[i].factory.from_value_spec(frag) {
                Ok(c) => Ok(ComponentConfigModel { type_str: tag, nested: frag, condition: c }),
                Err(e) => Err(ConfigErrorModel::FailedToParseType(tag, e)),
            },
        }
    }
}

impl<F: Factory> Registry<F> {
    /// Decode a configuration node against this registry: the discriminator
    /// selects the variant, the matched factory consumes the fragment, and
    /// every failure is reported exactly as `decode_spec` states it.
    pub fn decode(&self, t: Table) -> (r: Result<ComponentConfig<F>, ConfigError>)
        ensures
            (match r {
                Ok(c) => decode_spec(self.deep_view(), t.deep_view()) is Ok && c.deep_view()
                    == decode_spec(self.deep_view(), t.deep_view())->Ok_0,
                Err(e) => decode_spec(self.deep_view(), t.deep_view()) is Err && e.deep_view()
                    == decode_spec(self.deep_view(), t.deep_view())->Err_0,
            }),
    {
        let sw = match ConfigSwapOut::from_table(&t) {
            Ok(sw) => sw,
            Err(e) => {
                return Err(e);
            },
        };
        let ghost tag = extract_spec(t.deep_view()).0;
        let ghost frag = extract_spec(t.deep_view()).1;
        let n = self.entries.len();
        let mut i: usize = 0;
        while i < n
            invariant
                0 <= i <= n,
                n == self.deep_view().len(),
                sw.deep_view() == (ConfigSwapOutModel { type_str: tag, nested: frag }),
                tag.len() > 0,
                tag == extract_spec(t.deep_view()).0,
                frag == extract_spec(t.deep_view()).1,
                forall|j: int| 0 <= j < i ==> self.deep_view()[j].name != tag,
            decreases n - i,
        {
            if self.entries[i].name == sw.type_str {
                proof {
                    assert(self.deep_view()[i as int].name == tag);
                    lemma_lookup_spec(self.deep_view(), tag);
                    match lookup_spec(self.deep_view(), tag) {
                        Some(k) => {
                            assert(!(k < i)) by {
                                if k < i {
                                    assert(self.deep_view()[k].name != tag);
                                }
                            }
                            assert(!(k > i)) by {
                                if k > i {
                                    assert(self.deep_view()[i as int].name != tag);
                                }
                            }
                        },
                        None => {
                            assert(self.deep_view()[i as int].name != tag);
                        },
                    }
                    assert(lookup_spec(self.deep_view(), tag) == Some(i as int));
                }
                let b = &self.entries[i];
                match b.factory.from_value(&sw.nested) {
                    Ok(c) => {
                        let r = ComponentConfig { swap_out: sw, condition: c };
                        proof {
                            assert(r.deep_view() =~= decode_spec(
                                self.deep_view(),
                                t.deep_view(),
                            )->Ok_0);
                        }
                        return Ok(r);
                    },
                    Err(e) => {
                        return Err(ConfigError::FailedToParseType(sw.type_str, e));
                    },
                }
            }
            i = i + 1;
        }
        proof {
            lemma_lookup_spec(self.deep_view(), tag);
            assert(lookup_spec(self.deep_view(), tag) is None);
        }
        Err(ConfigError::UnrecognizedType(sw.type_str))
    }

    /// Decode a configuration document from its text: parse, then decode.
    /// A parse error and a decode error surface alike, as one descriptive
    /// message.
    pub fn decode_str(&self, s: &str) -> (r: Result<ComponentConfig<F>, String>)
        ensures
            (match r {
                Ok(c) => decode_str_spec(self.deep_view(), s@) is Ok && c.deep_view()
                    == decode_str_spec(self.deep_view(), s@)->Ok_0,
                Err(e) => decode_str_spec(self.deep_view(), s@) is Err && e@ == decode_str_spec(
                    self.deep_view(),
                    s@,
                )->Err_0,
            }),
    {
        match parse_document(s) {
            Err(e) => Err(e),
            Ok(t) => match self.decode(t) {
                Err(e) => Err(e.message()),
                Ok(c) => Ok(c),
            },
        }
    }
}

/// Decoding a document's text, at the level of models: a parse error or a
/// decode error surfaces as its message text.
pub open spec fn decode_str_spec<F: Factory>(
    entries: Seq<ComponentBuilderModel<F>>,
    s: Seq<char>,
) -> Result<ComponentConfigModel<<F::Component as DeepView>::V>, Seq<char>> {
    match parse_doc_spec(s) {
        Err(e) => Err(e),
        Ok(t) => match decode_spec(entries, t) {
            Err(e) => Err(error_message(e)),
            Ok(c) => Ok(c),
        },
    }
}

impl<F: Factory> ComponentConfig<F> {
    /// Re-encode this wrapper: `type = "<discriminator>"`, then the retained
    /// fields, in their original order.
    pub fn to_toml(&self) -> (r: String)
        ensures
            r@ == emit_document(self.deep_view().type_str, self.deep_view().nested),
    {
        emit_document_string(&self.swap_out.type_str, &self.swap_out.nested)
    }
}

/// Tag extraction leaves the discriminator empty when no field supplies one.
pub proof fn lemma_extract_tag_empty(t: Seq<FieldModel>)
    requires
        forall|i: int|
            0 <= i < t.len() && t[i].key == "type"@ ==> (t[i].value matches ValueModel::Str(s)
                ==> s.len() == 0),
    ensures
        extract_spec(t).0.len() == 0,
    decreases t.len(),
{
    if t.len() > 0 {
        assert(forall|i: int|
            0 <= i < t.drop_last().len() ==> t.drop_last()[i] == t[i]);
        lemma_extract_tag_empty(t.drop_last());
    }
}

/// Tag required: a document that never sets the reserved `type` key to a
/// non-empty string fails with the missing-type error, regardless of the
/// other fields present and of what the registry holds.
pub proof fn lemma_missing_type_field<F: Factory>(
    entries: Seq<ComponentBuilderModel<F>>,
    t: Seq<FieldModel>,
)
    requires
        forall|i: int|
            0 <= i < t.len() && t[i].key == "type"@ ==> (t[i].value matches ValueModel::Str(s)
                ==> s.len() == 0),
    ensures
        decode_spec(entries, t) == Err::<
            ComponentConfigModel<<F::Component as DeepView>::V>,
            ConfigErrorModel,
        >(ConfigErrorModel::MissingTypeField),
{
    lemma_extract_tag_empty(t);
}

/// What tag extraction guarantees of its fragment: every fragment field is
/// one of the document's fields, none carries the reserved `type` key, the
/// fragment binds every key at most once, and a non-empty discriminator is
/// the string value of some document field.
pub proof fn lemma_extract_frag_props(t: Seq<FieldModel>)
    ensures
        forall|i: int|
            0 <= i < extract_spec(t).1.len() ==> exists|j: int|
                0 <= j < t.len() && #[trigger] extract_spec(t).1[i] == t[j],
        forall|i: int|
            0 <= i < extract_spec(t).1.len() ==> (#[trigger] extract_spec(t).1[i].key)
                != "type"@,
        distinct_keys(extract_spec(t).1),
        extract_spec(t).0.len() > 0 ==> exists|j: int|
            0 <= j < t.len() && #[trigger] t[j].value == ValueModel::Str(extract_spec(t).0),
    decreases t.len(),
{
    if t.len() > 0 {
        let tl = t.drop_last();
        let prev = extract_spec(tl);
        let f = t.last();
        let frag = extract_spec(t).1;
        lemma_extract_frag_props(tl);
        assert(forall|j: int| 0 <= j < tl.len() ==> tl[j] == t[j]);
        assert forall|i: int| 0 <= i < prev.1.len() implies exists|j: int|
            0 <= j < t.len() && #[trigger] prev.1[i] == t[j] by {
            let j = choose|j: int| 0 <= j < tl.len() && #[trigger] prev.1[i] == tl[j];
            assert(prev.1[i] == t[j]);
        }
        if f.key == "type"@ {
            match f.value {
                ValueModel::Str(s) => {
                    if s.len() > 0 {
                        assert(t[t.len() - 1].value == ValueModel::Str(s));
                    }
                },
                ValueModel::Bool(_) => {
                },
            }
            if prev.0.len() > 0 && extract_spec(t).0 == prev.0 {
                let j = choose|j: int|
                    0 <= j < tl.len() && #[trigger] tl[j].value == ValueModel::Str(prev.0);
                assert(t[j].value == ValueModel::Str(prev.0));
            }
        } else {
            assert(frag == table_upsert(prev.1, f));
            lemma_first_key_index(prev.1, f.key);
            if extract_spec(t).0.len() > 0 {
                let j = choose|j: int|
                    0 <= j < tl.len() && #[trigger] tl[j].value == ValueModel::Str(prev.0);
                assert(t[j].value == ValueModel::Str(extract_spec(t).0));
            }
            match first_key_index(prev.1, f.key) {
                None => {
                    assert(frag == prev.1.push(f));
                    assert(forall|i: int|
                        0 <= i < prev.1.len() ==> frag[i] == #[trigger] prev.1[i]);
                    assert(frag[frag.len() - 1] == f && f == t[t.len() - 1]);
                    assert forall|a: int, b: int| 0 <= a < b < frag.len() implies frag[a].key
                        != frag[b].key by {
                        if b == prev.1.len() {
                            assert(frag[a] == prev.1[a]);
                            assert(prev.1[a].key != f.key);
                        }
                    }
                },
                Some(p) => {
                    assert(frag == prev.1.update(p, f));
                    assert(forall|i: int|
                        0 <= i < frag.len() && i != p ==> frag[i] == #[trigger] prev.1[i]);
                    assert(frag[p] == f && f == t[t.len() - 1]);
                    assert(frag[p].key == prev.1[p].key);
                    assert forall|a: int, b: int| 0 <= a < b < frag.len() implies frag[a].key
                        != frag[b].key by {
                        assert(frag[a].key == prev.1[a].key && frag[b].key == prev.1[b].key);
                    }
                },
            }
        }
    }
}

/// Appending fields that never use the reserved `type` key, bind distinct
/// keys, and bind no key the fragment already holds extends the fragment
/// and leaves the discriminator alone.
pub proof fn lemma_extract_append(t1: Seq<FieldModel>, t2: Seq<FieldModel>)
    requires
        forall|i: int| 0 <= i < t2.len() ==> (#[trigger] t2[i].key) != "type"@,
        distinct_keys(t2),
        forall|i: int|
            0 <= i < t2.len() ==> !table_has_key(extract_spec(t1).1, #[trigger] t2[i].key),
    ensures
        extract_spec(t1 + t2).0 == extract_spec(t1).0,
        extract_spec(t1 + t2).1 == extract_spec(t1).1 + t2,
    decreases t2.len(),
{
    if t2.len() == 0 {
        assert(t1 + t2 =~= t1);
        assert(extract_spec(t1).1 + t2 =~= extract_spec(t1).1);
    } else {
        let t2l = t2.drop_last();
        let f = t2.last();
        assert(forall|i: int| 0 <= i < t2l.len() ==> t2l[i] == #[trigger] t2[i]);
        lemma_extract_append(t1, t2l);
        assert((t1 + t2).drop_last() =~= t1 + t2l);
        assert((t1 + t2).last() == f);
        assert(f.key != "type"@);
        let e = extract_spec(t1).1 + t2l;
        assert(extract_spec(t1 + t2l).1 == e);
        lemma_first_key_index(e, f.key);
        assert(first_key_index(e, f.key) is None) by {
            match first_key_index(e, f.key) {
                Some(p) => {
                    if p < extract_spec(t1).1.len() {
                        assert(e[p] == extract_spec(t1).1[p]);
                        assert(table_has_key(extract_spec(t1).1, f.key));
                    } else {
                        assert(e[p] == t2l[p - extract_spec(t1).1.len()]);
                        assert(t2[p - extract_spec(t1).1.len()].key == f.key);
                    }
                },
                None => {
                },
            }
        }
        assert(table_upsert(e, f) == e.push(f));
        assert(extract_spec(t1).1 + t2 =~= e.push(f));
    }
}

/// Round trip: a document that decodes successfully re-encodes to a
/// document that parses and decodes to the very same model — the same
/// discriminator, the same fields in the same order, the same constructed
/// capability.
pub proof fn lemma_round_trip<F: Factory>(entries: Seq<ComponentBuilderModel<F>>, s: Seq<char>)
    requires
        parse_doc_spec(s) is Ok,
        decode_spec(entries, parse_doc_spec(s)->Ok_0) is Ok,
    ensures
        ({
            let c = decode_spec(entries, parse_doc_spec(s)->Ok_0)->Ok_0;
            let s2 = emit_document(c.type_str, c.nested);
            parse_doc_spec(s2) is Ok && decode_spec(entries, parse_doc_spec(s2)->Ok_0)
                == decode_spec(entries, parse_doc_spec(s)->Ok_0)
        }),
{
    let t = parse_doc_spec(s)->Ok_0;
    let tag = extract_spec(t).0;
    let frag = extract_spec(t).1;
    let c = decode_spec(entries, t)->Ok_0;
    assert(c.type_str == tag && c.nested == frag);
    crate::text::lemma_parse_doc_wf(s);
    lemma_extract_frag_props(t);
    assert(crate::text::encodable_fields(frag)) by {
        assert forall|i: int| 0 <= i < frag.len() implies crate::text::encodable_field(
            #[trigger] frag[i],
        ) by {
            let j = choose|j: int| 0 <= j < t.len() && #[trigger] frag[i] == t[j];
            assert(crate::text::encodable_field(t[j]));
        }
    }
    assert(crate::text::encodable_str(tag)) by {
        let j = choose|j: int| 0 <= j < t.len() && #[trigger] t[j].value == ValueModel::Str(tag);
        assert(crate::text::encodable_field(t[j]));
    }
    crate::text::lemma_emit_parse(tag, frag);
    let tf = FieldModel { key: "type"@, value: ValueModel::Str(tag) };
    let t2 = seq![tf] + frag;
    assert(parse_doc_spec(emit_document(tag, frag))->Ok_0 == t2);
    assert(seq![tf].drop_last() =~= Seq::<FieldModel>::empty());
    assert(seq![tf].last() == tf);
    assert(extract_spec(Seq::<FieldModel>::empty()) == (
        Seq::<char>::empty(),
        Seq::<FieldModel>::empty(),
    ));
    assert(extract_spec(seq![tf].drop_last()) == extract_spec(Seq::<FieldModel>::empty()));
    assert(extract_spec(seq![tf]).0 == tag && extract_spec(seq![tf]).1 =~= Seq::<
        FieldModel,
    >::empty());
    assert(forall|i: int|
        0 <= i < frag.len() ==> !table_has_key(extract_spec(seq![tf]).1, #[trigger] frag[i].key));
    lemma_extract_append(seq![tf], frag);
    assert(extract_spec(t2).0 == tag);
    assert(extract_spec(t2).1 =~= frag);
}

/// Registry isolation: families keep independent registries.  A
/// discriminator registered with one family and not with another stays
/// invisible to the other family's lookups: decoding against the second
/// registry reports the unrecognized type, whatever the first one holds.
pub proof fn lemma_registry_isolation<F1: Factory, F2: Factory>(
    entries1: Seq<ComponentBuilderModel<F1>>,
    entries2: Seq<ComponentBuilderModel<F2>>,
    t: Seq<FieldModel>,
)
    requires
        extract_spec(t).0.len() > 0,
        exists|i: int| 0 <= i < entries1.len() && entries1[i].name == extract_spec(t).0,
        forall|j: int| 0 <= j < entries2.len() ==> entries2[j].name != extract_spec(t).0,
    ensures
        decode_spec(entries2, t) == Err::<
            ComponentConfigModel<<F2::Component as DeepView>::V>,
            ConfigErrorModel,
        >(ConfigErrorModel::UnrecognizedType(extract_spec(t).0)),
{
    lemma_lookup_spec(entries2, extract_spec(t).0);
}

} // verus!
