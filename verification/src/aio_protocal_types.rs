//! The protocol index: a description of each agent or MCP service (its methods,
//! their input schemas, its source, its keywords and scenario phrases), filed by
//! id, with a keyword index from lower-cased keywords to the ids that carry them.
use vstd::prelude::*;
use crate::text::{clone_opt_text, clone_texts, texts_view, texts_contain, without_text, to_lower, lowercase,
    drop_text, drop_entry, lemma_drop_text, concat3, occurs_in, utf8_of, text_contains};
use crate::sorted_map::{SortedMap, KeyFields, text_key, keys_of, map_of, strictly_sorted, lemma_text_key_injective};
use crate::paging::skip_take;
use crate::json_value::{JsonValue, field, field_index, lemma_field_index, find_field, parse_json, json_from_str};

verus! {

/// A property of an input schema; object properties hold their own properties,
/// array properties the schema of their items.
#[derive(Debug)]
pub struct SchemaProperty {
    pub property_type: String,
    pub description: Option<String>,
    pub default: Option<String>,
    pub enum_values: Option<Vec<String>>,
    pub items: Option<Box<SchemaProperty>>,
    pub properties: Option<Vec<(String, SchemaProperty)>>,
    pub required: Option<Vec<String>>,
}

/// A schema property as a value.
pub enum SchemaRecord {
    Node {
        property_type: String,
        description: Option<String>,
        default: Option<String>,
        enum_values: Option<Seq<String>>,
        items: Option<Box<SchemaRecord>>,
        properties: Option<Seq<(String, SchemaRecord)>>,
        required: Option<Seq<String>>,
    },
}

/// The value of a schema property.
pub open spec fn schema_view(p: SchemaProperty) -> SchemaRecord
    decreases p, 0nat,
{
    SchemaRecord::Node {
        property_type: p.property_type,
        description: p.description,
        default: p.default,
        enum_values: match p.enum_values {
            Some(v) => Some(v@),
            None => None,
        },
        items: match p.items {
            Some(b) => Some(Box::new(schema_view(*b))),
            None => None,
        },
        properties: match p.properties {
            Some(v) => Some(props_view(v@)),
            None => None,
        },
        required: match p.required {
            Some(v) => Some(v@),
            None => None,
        },
    }
}

/// The values of a list of named schema properties.
pub open spec fn props_view(s: Seq<(String, SchemaProperty)>) -> Seq<(String, SchemaRecord)>
    decreases s, 1nat,
{
    if s.len() == 0 {
        Seq::empty()
    } else {
        props_view(s.drop_last()).push((s.last().0, schema_view(s.last().1)))
    }
}

/// Copies a list of optional strings.
fn copy_opt_texts(o: &Option<Vec<String>>) -> (r: Option<Vec<String>>)
    ensures
        match (r, *o) {
            (Some(a), Some(b)) => a@ == b@,
            (None, None) => true,
            _ => false,
        },
{
    match o {
        Some(v) => Some(clone_texts(v)),
        None => None,
    }
}

/// Copies a schema property and all the properties below it.
fn copy_schema(p: &SchemaProperty) -> (r: SchemaProperty)
    ensures
        schema_view(r) == schema_view(*p),
    decreases p, 0nat,
{
    let items = match &p.items {
        Some(b) => Some(Box::new(copy_schema(&**b))),
        None => None,
    };
    let properties = match &p.properties {
        Some(v) => Some(copy_props(v)),
        None => None,
    };
    let r = SchemaProperty {
        property_type: p.property_type.clone(),
        description: clone_opt_text(&p.description),
        default: clone_opt_text(&p.default),
        enum_values: copy_opt_texts(&p.enum_values),
        items,
        properties,
        required: copy_opt_texts(&p.required),
    };
    proof {
        assert(schema_view(r) == schema_view(*p));
    }
    r
}

/// Copies a list of named schema properties.
fn copy_props(v: &Vec<(String, SchemaProperty)>) -> (r: Vec<(String, SchemaProperty)>)
    ensures
        props_view(r@) == props_view(v@),
    decreases v, 1nat,
{
    let mut out: Vec<(String, SchemaProperty)> = Vec::new();
    let n = v.len();
    for i in 0..n
        invariant
            n == v@.len(),
            props_view(out@) == props_view(v@.take(i as int)),
    {
        proof {
            assert(decreases_to!(v => v@[i as int].1));
        }
        let name = v[i].0.clone();
        let prop = copy_schema(&v[i].1);
        let ghost before = out@;
        out.push((name, prop));
        proof {
            assert(out@.drop_last() =~= before);
            assert(v@.take(i + 1).drop_last() =~= v@.take(i as int));
        }
    }
    assert(v@.take(n as int) =~= v@);
    out
}

impl Clone for SchemaProperty {
    fn clone(&self) -> (r: Self)
        ensures
            schema_view(r) == schema_view(*self),
    {
        copy_schema(self)
    }
}

/// The parameters of a method.
#[derive(Debug)]
pub struct InputSchema {
    pub schema_type: String,
    pub properties: Vec<(String, SchemaProperty)>,
    pub required: Option<Vec<String>>,
}

/// An input schema as a value.
pub struct InputSchemaRecord {
    pub schema_type: String,
    pub properties: Seq<(String, SchemaRecord)>,
    pub required: Option<Seq<String>>,
}

impl View for InputSchema {
    type V = InputSchemaRecord;

    open spec fn view(&self) -> InputSchemaRecord {
        InputSchemaRecord {
            schema_type: self.schema_type,
            properties: props_view(self.properties@),
            required: match self.required {
                Some(v) => Some(v@),
                None => None,
            },
        }
    }
}

impl Clone for InputSchema {
    fn clone(&self) -> (r: Self)
        ensures
            r@ == self@,
    {
        InputSchema {
            schema_type: self.schema_type.clone(),
            properties: copy_props(&self.properties),
            required: copy_opt_texts(&self.required),
        }
    }
}

/// A method of a service.
#[derive(Debug)]
pub struct Method {
    pub name: String,
    pub description: String,
    pub required_params: Option<Vec<String>>,
    pub input_schema: Option<InputSchema>,
}

/// A method as a value.
pub struct MethodRecord {
    pub name: String,
    pub description: String,
    pub required_params: Option<Seq<String>>,
    pub input_schema: Option<InputSchemaRecord>,
}

impl View for Method {
    type V = MethodRecord;

    open spec fn view(&self) -> MethodRecord {
        MethodRecord {
            name: self.name,
            description: self.description,
            required_params: match self.required_params {
                Some(v) => Some(v@),
                None => None,
            },
            input_schema: match self.input_schema {
                Some(i) => Some(i@),
                None => None,
            },
        }
    }
}

impl Clone for Method {
    fn clone(&self) -> (r: Self)
        ensures
            r@ == self@,
    {
        Method {
            name: self.name.clone(),
            description: self.description.clone(),
            required_params: copy_opt_texts(&self.required_params),
            input_schema: match &self.input_schema {
                Some(i) => Some(i.clone()),
                None => None,
            },
        }
    }
}

/// The methods of a service, each as a value.
pub open spec fn methods_view(m: Seq<Method>) -> Seq<MethodRecord> {
    m.map_values(|x: Method| x@)
}

fn copy_methods(m: &Vec<Method>) -> (r: Vec<Method>)
    ensures
        methods_view(r@) == methods_view(m@),
{
    let mut out: Vec<Method> = Vec::new();
    for i in 0..m.len()
        invariant
            methods_view(out@) == methods_view(m@.subrange(0, i as int)),
    {
        let x = m[i].clone();
        let ghost before = out@;
        out.push(x);
        proof {
            assert(methods_view(out@) =~= methods_view(before).push(x@));
            assert(methods_view(m@.subrange(0, i + 1)) =~= methods_view(m@.subrange(0, i as int)).push(m@[i as int]@));
        }
    }
    assert(m@.subrange(0, m@.len() as int) =~= m@);
    out
}

/// Where a service comes from.
#[derive(Debug)]
pub struct Source {
    pub author: String,
    pub version: String,
    pub github: String,
}

impl Clone for Source {
    fn clone(&self) -> (r: Self)
        ensures
            r == *self,
    {
        Source { author: self.author.clone(), version: self.version.clone(), github: self.github.clone() }
    }
}

/// The description of an agent or MCP service, filed under its id.
#[derive(Debug)]
pub struct AioIndex {
    pub id: String,
    pub description: String,
    pub transport: Vec<String>,
    pub methods: Vec<Method>,
    pub source: Source,
    pub keywords: Vec<String>,
    pub scenarios: Vec<String>,
}

/// A service description as a value.
pub struct IndexRecord {
    pub id: String,
    pub description: String,
    pub transport: Seq<String>,
    pub methods: Seq<MethodRecord>,
    pub source: Source,
    pub keywords: Seq<String>,
    pub scenarios: Seq<String>,
}

impl View for AioIndex {
    type V = IndexRecord;

    open spec fn view(&self) -> IndexRecord {
        IndexRecord {
            id: self.id,
            description: self.description,
            transport: self.transport@,
            methods: methods_view(self.methods@),
            source: self.source,
            keywords: self.keywords@,
            scenarios: self.scenarios@,
        }
    }
}

impl Clone for AioIndex {
    fn clone(&self) -> (r: Self)
        ensures
            r@ == self@,
    {
        AioIndex {
            id: self.id.clone(),
            description: self.description.clone(),
            transport: clone_texts(&self.transport),
            methods: copy_methods(&self.methods),
            source: self.source.clone(),
            keywords: clone_texts(&self.keywords),
            scenarios: clone_texts(&self.scenarios),
        }
    }
}

impl Default for AioIndex {
    fn default() -> (r: Self)
        ensures
            r@.id@ == Seq::<char>::empty(),
            r@.description@ == Seq::<char>::empty(),
            r@.transport == Seq::<String>::empty(),
            r@.methods == Seq::<MethodRecord>::empty(),
            r@.source.author@ == Seq::<char>::empty(),
            r@.source.version@ == Seq::<char>::empty(),
            r@.source.github@ == Seq::<char>::empty(),
            r@.keywords == Seq::<String>::empty(),
            r@.scenarios == Seq::<String>::empty(),
    {
        let r = AioIndex {
            id: String::new(),
            description: String::new(),
            transport: Vec::new(),
            methods: Vec::new(),
            source: Source { author: String::new(), version: String::new(), github: String::new() },
            keywords: Vec::new(),
            scenarios: Vec::new(),
        };
        assert(methods_view(r.methods@) =~= Seq::<MethodRecord>::empty());
        r
    }
}

/// A list of ids, as the keyword index stores it.
#[derive(Debug)]
pub struct StringVec(pub Vec<String>);

/// The ids filed under key `k` of a keyword index.
pub open spec fn ids_under(m: Map<KeyFields, Seq<Seq<char>>>, k: KeyFields) -> Seq<Seq<char>> {
    if m.contains_key(k) {
        m[k]
    } else {
        Seq::empty()
    }
}

/// The keyword index after `id` was filed under `keyword`, lower-cased; an id
/// already there is not filed twice.
pub open spec fn keyword_added(m: Map<KeyFields, Seq<Seq<char>>>, keyword: Seq<char>, id: Seq<char>) -> Map<KeyFields, Seq<Seq<char>>> {
    let k = text_key(lowercase(keyword));
    if ids_under(m, k).contains(id) {
        m
    } else {
        m.insert(k, ids_under(m, k).push(id))
    }
}

/// After `id` is filed under a keyword, the keyword's list holds it once, and
/// after it is taken out, the list does not hold it.
pub proof fn lemma_keyword_filed(m: Map<KeyFields, Seq<Seq<char>>>, keyword: Seq<char>, id: Seq<char>)
    ensures
        ids_under(keyword_added(m, keyword, id), text_key(lowercase(keyword))).contains(id),
        !ids_under(keyword_removed(m, keyword, id), text_key(lowercase(keyword))).contains(id),
{
    let k = text_key(lowercase(keyword));
    let l = ids_under(m, k);
    if !l.contains(id) {
        assert(l.push(id)[l.len() as int] == id);
    }
    if m.contains_key(k) {
        lemma_drop_entry_lacks(m[k], id);
    }
}

/// What `drop_entry` leaves does not hold the dropped entry.
pub proof fn lemma_drop_entry_lacks(v: Seq<Seq<char>>, s: Seq<char>)
    ensures
        !drop_entry(v, s).contains(s),
    decreases v.len(),
{
    reveal_with_fuel(Seq::<_>::filter, 1);
    if v.len() > 0 {
        lemma_drop_entry_lacks(v.drop_last(), s);
        let sub = drop_entry(v.drop_last(), s);
        if v.last() != s {
            assert forall|j: int| 0 <= j < sub.len() + 1 implies sub.push(v.last())[j] != s by {
                if j < sub.len() {
                    assert(sub[j] != s);
                }
            }
        }
    }
}

/// The keyword index after `id` was filed under each of `keywords` in turn.
pub open spec fn keywords_added(m: Map<KeyFields, Seq<Seq<char>>>, keywords: Seq<String>, id: Seq<char>) -> Map<KeyFields, Seq<Seq<char>>>
    decreases keywords.len(),
{
    if keywords.len() == 0 {
        m
    } else {
        keyword_added(keywords_added(m, keywords.drop_last(), id), keywords.last()@, id)
    }
}

/// The keyword index after `id` was taken out of the list of `keyword`,
/// lower-cased; a list left empty goes.
pub open spec fn keyword_removed(m: Map<KeyFields, Seq<Seq<char>>>, keyword: Seq<char>, id: Seq<char>) -> Map<KeyFields, Seq<Seq<char>>> {
    let k = text_key(lowercase(keyword));
    if m.contains_key(k) {
        let rest = drop_entry(m[k], id);
        if rest.len() == 0 {
            m.remove(k)
        } else {
            m.insert(k, rest)
        }
    } else {
        m
    }
}

/// The keyword index after `id` was taken out of the list of each of `keywords`
/// in turn.
pub open spec fn keywords_removed(m: Map<KeyFields, Seq<Seq<char>>>, keywords: Seq<String>, id: Seq<char>) -> Map<KeyFields, Seq<Seq<char>>>
    decreases keywords.len(),
{
    if keywords.len() == 0 {
        m
    } else {
        keyword_removed(keywords_removed(m, keywords.drop_last(), id), keywords.last()@, id)
    }
}

/// The service descriptions of an index walk, in order.
pub open spec fn index_values(ps: Seq<(KeyFields, IndexRecord)>) -> Seq<IndexRecord> {
    ps.map_values(|e: (KeyFields, IndexRecord)| e.1)
}

/// What filing the description `x` does, from `s0` to `s1` with answer `r`: an id
/// already filed is refused and nothing changes; otherwise `x` is filed under its
/// id, and its id under each of its keywords.
pub open spec fn created(s0: IndexView, s1: IndexView, x: IndexRecord, r: Result<(), String>) -> bool {
    if s0.index(x.id@) is Some {
        (r matches Err(e) && e@ == "Index with ID "@ + x.id@ + " already exists"@) && s1 == s0
    } else {
        &&& r is Ok
        &&& map_of(s1.indices) == map_of(s0.indices).insert(text_key(x.id@), x)
        &&& s1.keyword_map() == keywords_added(s0.keyword_map(), x.keywords, x.id@)
    }
}

/// What the manager holds: the service descriptions in the order of their ids,
/// and the keyword index in the order of its keys.
pub struct IndexView {
    pub indices: Seq<(KeyFields, IndexRecord)>,
    pub keywords: Seq<(KeyFields, Seq<Seq<char>>)>,
}

impl IndexView {
    /// The description filed under `id`.
    pub open spec fn index(self, id: Seq<char>) -> Option<IndexRecord> {
        if map_of(self.indices).contains_key(text_key(id)) {
            Some(map_of(self.indices)[text_key(id)])
        } else {
            None
        }
    }

    /// The keyword index as a map.
    pub open spec fn keyword_map(self) -> Map<KeyFields, Seq<Seq<char>>> {
        map_of(self.keywords)
    }
}

/// The service descriptions and the keyword index.
pub struct AioIndexManager {
    indices: SortedMap<String, AioIndex>,
    keyword_index: SortedMap<String, StringVec>,
}

impl View for AioIndexManager {
    type V = IndexView;

    closed spec fn view(&self) -> IndexView {
        IndexView {
            indices: self.indices.pairs().map_values(|e: (KeyFields, AioIndex)| (e.0, e.1@)),
            keywords: self.keyword_index.pairs().map_values(|e: (KeyFields, StringVec)| (e.0, texts_view(e.1.0@))),
        }
    }
}

impl AioIndexManager {
    pub closed spec fn wf(&self) -> bool {
        &&& self.indices.wf()
        &&& self.keyword_index.wf()
    }

    proof fn lemma_maps(&self)
        requires
            self.wf(),
        ensures
            map_of(self@.indices) == self.indices.as_map().map_values(|x: AioIndex| x@),
            map_of(self@.keywords) == self.keyword_index.as_map().map_values(|l: StringVec| texts_view(l.0@)),
            strictly_sorted(keys_of(self@.indices)),
            strictly_sorted(keys_of(self@.keywords)),
    {
        self.indices.lemma_pairs();
        self.keyword_index.lemma_pairs();
        let ps = self.indices.pairs();
        let qs = self.keyword_index.pairs();
        assert(keys_of(self@.indices) =~= keys_of(ps));
        assert(keys_of(self@.keywords) =~= keys_of(qs));
        assert forall|k: KeyFields| self.indices.as_map().contains_key(k) implies #[trigger] map_of(self@.indices)[k]
            == self.indices.as_map()[k]@ by {
            assert(keys_of(self@.indices).index_of(k) == keys_of(ps).index_of(k));
        }
        assert forall|k: KeyFields| self.keyword_index.as_map().contains_key(k) implies #[trigger] map_of(self@.keywords)[k]
            == texts_view(self.keyword_index.as_map()[k].0@) by {
            assert(keys_of(self@.keywords).index_of(k) == keys_of(qs).index_of(k));
        }
        assert(map_of(self@.indices) =~= self.indices.as_map().map_values(|x: AioIndex| x@));
        assert(map_of(self@.keywords) =~= self.keyword_index.as_map().map_values(|l: StringVec| texts_view(l.0@)));
    }

    /// The walks of both stores are in strictly ascending order of their keys.
    pub proof fn lemma_sorted(&self)
        requires
            self.wf(),
        ensures
            strictly_sorted(keys_of(self@.indices)),
            strictly_sorted(keys_of(self@.keywords)),
    {
        self.lemma_maps();
    }

    pub fn new() -> (s: Self)
        ensures
            s.wf(),
            s@.indices == Seq::<(KeyFields, IndexRecord)>::empty(),
            s@.keywords == Seq::<(KeyFields, Seq<Seq<char>>)>::empty(),
    {
        let s = AioIndexManager { indices: SortedMap::new(), keyword_index: SortedMap::new() };
        assert(s@.indices =~= Seq::<(KeyFields, IndexRecord)>::empty());
        assert(s@.keywords =~= Seq::<(KeyFields, Seq<Seq<char>>)>::empty());
        s
    }

    /// Files `id` under `keyword`, lower-cased, unless it is there already.
    fn add_to_keyword_index(&mut self, keyword: &String, id: &String)
        requires
            old(self).wf(),
        ensures
            final(self).wf(),
            final(self)@.indices == old(self)@.indices,
            final(self)@.keyword_map() == keyword_added(old(self)@.keyword_map(), keyword@, id@),
    {
        proof {
            old(self).lemma_maps();
        }
        let key = to_lower(keyword.as_str());
        let list = match self.keyword_index.get(&key) {
            Some(l) => {
                if texts_contain(&l.0, id) {
                    return;
                }
                let mut copy = clone_texts(&l.0);
                copy.push(id.clone());
                copy
            },
            None => vec![id.clone()],
        };
        let ghost lv = texts_view(list@);
        self.keyword_index.insert(key, StringVec(list));
        proof {
            self.lemma_maps();
            let k = text_key(lowercase(keyword@));
            assert(lv =~= ids_under(old(self)@.keyword_map(), k).push(id@));
            assert(self@.keyword_map() =~= keyword_added(old(self)@.keyword_map(), keyword@, id@));
            assert(self@.indices =~= old(self)@.indices);
        }
    }

    /// Takes `id` out of the list of `keyword`, lower-cased; a list left empty goes.
    fn remove_from_keyword_index(&mut self, keyword: &String, id: &String)
        requires
            old(self).wf(),
        ensures
            final(self).wf(),
            final(self)@.indices == old(self)@.indices,
            final(self)@.keyword_map() == keyword_removed(old(self)@.keyword_map(), keyword@, id@),
    {
        proof {
            old(self).lemma_maps();
        }
        let key = to_lower(keyword.as_str());
        let rest = match self.keyword_index.get(&key) {
            Some(l) => without_text(&l.0, id),
            None => {
                return;
            },
        };
        let ghost rv = texts_view(rest@);
        proof {
            let k = text_key(lowercase(keyword@));
            let l = self.keyword_index.as_map()[k].0@;
            lemma_drop_text(l, id@);
        }
        if rest.len() == 0 {
            self.keyword_index.remove(&key);
        } else {
            self.keyword_index.insert(key, StringVec(rest));
        }
        proof {
            self.lemma_maps();
            assert(self@.keyword_map() =~= keyword_removed(old(self)@.keyword_map(), keyword@, id@));
            assert(self@.indices =~= old(self)@.indices);
        }
    }

    /// Files `id` under each of `keywords` in turn.
    fn add_keywords(&mut self, keywords: &Vec<String>, id: &String)
        requires
            old(self).wf(),
        ensures
            final(self).wf(),
            final(self)@.indices == old(self)@.indices,
            final(self)@.keyword_map() == keywords_added(old(self)@.keyword_map(), keywords@, id@),
    {
        let n = keywords.len();
        for i in 0..n
            invariant
                n == keywords@.len(),
                self.wf(),
                self@.indices == old(self)@.indices,
                self@.keyword_map() == keywords_added(old(self)@.keyword_map(), keywords@.take(i as int), id@),
        {
            proof {
                assert(keywords@.take(i + 1).drop_last() =~= keywords@.take(i as int));
            }
            self.add_to_keyword_index(&keywords[i], id);
        }
        assert(keywords@.take(n as int) =~= keywords@);
    }

    /// Takes `id` out of the list of each of `keywords` in turn.
    fn remove_keywords(&mut self, keywords: &Vec<String>, id: &String)
        requires
            old(self).wf(),
        ensures
            final(self).wf(),
            final(self)@.indices == old(self)@.indices,
            final(self)@.keyword_map() == keywords_removed(old(self)@.keyword_map(), keywords@, id@),
    {
        let n = keywords.len();
        for i in 0..n
            invariant
                n == keywords@.len(),
                self.wf(),
                self@.indices == old(self)@.indices,
                self@.keyword_map() == keywords_removed(old(self)@.keyword_map(), keywords@.take(i as int), id@),
        {
            proof {
                assert(keywords@.take(i + 1).drop_last() =~= keywords@.take(i as int));
            }
            self.remove_from_keyword_index(&keywords[i], id);
        }
        assert(keywords@.take(n as int) =~= keywords@);
    }

    /// Files a new service description under its id, and its id under each of its
    /// keywords; an id already filed is refused.
    pub fn create(&mut self, index: AioIndex) -> (r: Result<(), String>)
        requires
            old(self).wf(),
        ensures
            final(self).wf(),
            created(old(self)@, final(self)@, index@, r),
    {
        proof {
            old(self).lemma_maps();
        }
        let id = index.id.clone();
        if self.indices.contains_key(&id) {
            let m = concat3("Index with ID ", id.as_str(), " already exists");
            return Err(m);
        }
        let keywords = clone_texts(&index.keywords);
        let ghost iv = index@;
        self.indices.insert(id.clone(), index);
        proof {
            self.lemma_maps();
            assert(map_of(self@.indices) =~= map_of(old(self)@.indices).insert(text_key(id@), iv));
            assert(self@.keyword_map() =~= old(self)@.keyword_map());
        }
        self.add_keywords(&keywords, &id);
        Ok(())
    }

    /// The description filed under `id`.
    pub fn read(&self, id: &str) -> (r: Option<AioIndex>)
        requires
            self.wf(),
        ensures
            r is Some == self@.index(id@) is Some,
            r matches Some(x) ==> Some(x@) == self@.index(id@),
    {
        proof {
            self.lemma_maps();
        }
        let key = id.to_string();
        match self.indices.get(&key) {
            Some(x) => Some(x.clone()),
            None => None,
        }
    }

    /// Replaces the description filed under `id`, moving the id from the old
    /// keywords to the new ones; an id not filed is refused.
    pub fn update(&mut self, id: &str, updated_index: AioIndex) -> (r: Result<(), String>)
        requires
            old(self).wf(),
        ensures
            final(self).wf(),
            match old(self)@.index(id@) {
                None => (r matches Err(e) && e@ == "Index with ID "@ + id@ + " does not exist"@) && final(self)@ == old(self)@,
                Some(x) => {
                    &&& r is Ok
                    &&& map_of(final(self)@.indices) == map_of(old(self)@.indices).insert(text_key(id@), updated_index@)
                    &&& final(self)@.keyword_map() == keywords_added(
                        keywords_removed(old(self)@.keyword_map(), x.keywords, id@),
                        updated_index.keywords@,
                        id@,
                    )
                },
            },
    {
        proof {
            old(self).lemma_maps();
        }
        let key = id.to_string();
        let old_keywords = match self.indices.get(&key) {
            Some(x) => clone_texts(&x.keywords),
            None => {
                return Err(concat3("Index with ID ", id, " does not exist"));
            },
        };
        self.remove_keywords(&old_keywords, &key);
        let new_keywords = clone_texts(&updated_index.keywords);
        self.add_keywords(&new_keywords, &key);
        let ghost mid = self@;
        let ghost uv = updated_index@;
        proof {
            self.lemma_maps();
        }
        self.indices.insert(key, updated_index);
        proof {
            self.lemma_maps();
            assert(map_of(self@.indices) =~= map_of(old(self)@.indices).insert(text_key(id@), uv));
            assert(self@.keyword_map() =~= mid.keyword_map());
        }
        Ok(())
    }

    /// Removes the description filed under `id`, and the id from the lists of its
    /// keywords; an id not filed is refused.
    pub fn delete(&mut self, id: &str) -> (r: Result<(), String>)
        requires
            old(self).wf(),
        ensures
            final(self).wf(),
            match old(self)@.index(id@) {
                None => (r matches Err(e) && e@ == "Index with ID "@ + id@ + " does not exist"@) && final(self)@ == old(self)@,
                Some(x) => {
                    &&& r is Ok
                    &&& map_of(final(self)@.indices) == map_of(old(self)@.indices).remove(text_key(id@))
                    &&& final(self)@.keyword_map() == keywords_removed(old(self)@.keyword_map(), x.keywords, id@)
                },
            },
    {
        proof {
            old(self).lemma_maps();
        }
        let key = id.to_string();
        let old_keywords = match self.indices.get(&key) {
            Some(x) => clone_texts(&x.keywords),
            None => {
                return Err(concat3("Index with ID ", id, " does not exist"));
            },
        };
        self.remove_keywords(&old_keywords, &key);
        let ghost mid = self@;
        proof {
            self.lemma_maps();
        }
        self.indices.remove(&key);
        proof {
            self.lemma_maps();
            assert(map_of(self@.indices) =~= map_of(old(self)@.indices).remove(text_key(id@)));
            assert(self@.keyword_map() =~= mid.keyword_map());
        }
        Ok(())
    }

    /// All descriptions, in the order of their ids.
    pub fn list_all(&self) -> (r: Vec<AioIndex>)
        requires
            self.wf(),
        ensures
            r@.map_values(|x: AioIndex| x@) == index_values(self@.indices),
    {
        let n = self.indices.len();
        let r = self.page(0, n);
        assert(skip_take(index_values(self@.indices), 0, n as int) =~= index_values(self@.indices));
        r
    }

    /// At most `limit` descriptions from position `offset` of the walk on.
    pub fn get_indices_paginated(&self, offset: usize, limit: usize) -> (r: Vec<AioIndex>)
        requires
            self.wf(),
        ensures
            r@.map_values(|x: AioIndex| x@) == skip_take(index_values(self@.indices), offset as int, limit as int),
    {
        self.page(offset, limit)
    }

    fn page(&self, offset: usize, limit: usize) -> (r: Vec<AioIndex>)
        requires
            self.wf(),
        ensures
            r@.map_values(|x: AioIndex| x@) == skip_take(index_values(self@.indices), offset as int, limit as int),
    {
        let n = self.indices.len();
        let ghost vals = index_values(self@.indices);
        let mut out: Vec<AioIndex> = Vec::new();
        if offset >= n {
            assert(out@.map_values(|x: AioIndex| x@) =~= skip_take(vals, offset as int, limit as int));
            return out;
        }
        let end = if limit < n - offset { offset + limit } else { n };
        let mut i = offset;
        while i < end
            invariant
                offset <= i <= end <= n,
                n == self.indices.key_seq().len(),
                vals == index_values(self@.indices),
                vals.len() == n,
                out@.map_values(|x: AioIndex| x@) == vals.subrange(offset as int, i as int),
            decreases end - i,
        {
            let (_, x) = self.indices.entry_at(i);
            assert(vals[i as int] == x@);
            let c = x.clone();
            let ghost before = out@;
            out.push(c);
            proof {
                assert(out@.map_values(|x: AioIndex| x@) =~= before.map_values(|x: AioIndex| x@).push(c@));
                assert(vals.subrange(offset as int, i + 1) =~= vals.subrange(offset as int, i as int).push(vals[i as int]));
            }
            i = i + 1;
        }
        assert(vals.subrange(offset as int, end as int) =~= skip_take(vals, offset as int, limit as int));
        out
    }

    /// The number of descriptions.
    pub fn count(&self) -> (n: usize)
        requires
            self.wf(),
        ensures
            n == self@.indices.len(),
    {
        self.indices.len()
    }

    /// Filing a description under a new id (a successful `create`) adds one to
    /// the count; filing one under an id already there (`update`) keeps it.
    pub proof fn lemma_count_after_insert(s0: AioIndexManager, s1: AioIndexManager, k: KeyFields, x: IndexRecord)
        requires
            s0.wf(),
            s1.wf(),
            map_of(s1@.indices) == map_of(s0@.indices).insert(k, x),
        ensures
            s1@.indices.len() == s0@.indices.len() + if map_of(s0@.indices).contains_key(k) { 0int } else { 1int },
    {
        s0.lemma_sorted();
        s1.lemma_sorted();
        crate::sorted_map::lemma_len_after_insert(s0@.indices, s1@.indices, k, x);
    }

    /// Removing a description that is there (a successful `delete`) takes one
    /// from the count.
    pub proof fn lemma_count_after_remove(s0: AioIndexManager, s1: AioIndexManager, k: KeyFields)
        requires
            s0.wf(),
            s1.wf(),
            map_of(s1@.indices) == map_of(s0@.indices).remove(k),
        ensures
            s1@.indices.len() == s0@.indices.len() - if map_of(s0@.indices).contains_key(k) { 1int } else { 0int },
    {
        s0.lemma_sorted();
        s1.lemma_sorted();
        crate::sorted_map::lemma_len_after_remove(s0@.indices, s1@.indices, k);
    }
}

/// Whether `query`, lower-cased, occurs in `s`, lower-cased.
pub open spec fn hit(s: Seq<char>, query: Seq<char>) -> bool {
    occurs_in(utf8_of(lowercase(query)), utf8_of(lowercase(s)))
}

/// Whether `query` occurs in one of `v`, both lower-cased.
pub open spec fn any_hit(v: Seq<String>, query: Seq<char>) -> bool {
    exists|i: int| 0 <= i < v.len() && hit(#[trigger] v[i]@, query)
}

/// Whether `query` occurs in the name or description of one of `m`, both
/// lower-cased.
pub open spec fn any_method_hit(m: Seq<MethodRecord>, query: Seq<char>) -> bool {
    exists|i: int| 0 <= i < m.len() && (hit(#[trigger] m[i].name@, query) || hit(m[i].description@, query))
}

/// Whether `query`, lower-cased, occurs in the id, description, author, a method's
/// name or description, a keyword or a scenario phrase of `x`, lower-cased.
pub open spec fn text_matches(x: IndexRecord, query: Seq<char>) -> bool {
    ||| hit(x.id@, query)
    ||| hit(x.description@, query)
    ||| hit(x.source.author@, query)
    ||| any_method_hit(x.methods, query)
    ||| any_hit(x.keywords, query)
    ||| any_hit(x.scenarios, query)
}

/// The descriptions that the ids `ids` are filed under, in order, skipping ids
/// that are not filed.
pub open spec fn found_for(v: IndexView, ids: Seq<Seq<char>>) -> Seq<IndexRecord>
    decreases ids.len(),
{
    if ids.len() == 0 {
        Seq::empty()
    } else {
        let prev = found_for(v, ids.drop_last());
        match v.index(ids.last()) {
            Some(x) => prev.push(x),
            None => prev,
        }
    }
}

/// Whether a description with id `id` is in `s`.
pub open spec fn has_index_id(s: Seq<IndexRecord>, id: Seq<char>) -> bool {
    exists|j: int| 0 <= j < s.len() && (#[trigger] s[j]).id@ == id
}

/// `acc` followed by the descriptions that `ids` are filed under, skipping ids
/// not filed and descriptions whose id is there already.
pub open spec fn merged(v: IndexView, acc: Seq<IndexRecord>, ids: Seq<Seq<char>>) -> Seq<IndexRecord>
    decreases ids.len(),
{
    if ids.len() == 0 {
        acc
    } else {
        let prev = merged(v, acc, ids.drop_last());
        match v.index(ids.last()) {
            Some(x) => if has_index_id(prev, x.id@) {
                prev
            } else {
                prev.push(x)
            },
            None => prev,
        }
    }
}

/// Whether a keyword key holds `kl` without being `kl`.
pub open spec fn partial_key(k: KeyFields, kl: Seq<char>) -> bool {
    occurs_in(utf8_of(kl), k[0]) && k != text_key(kl)
}

/// `acc` followed by what the keyword entries `ks` whose keys hold `kl` (without
/// being `kl`) add, in the order of the walk.
pub open spec fn partial_walk(v: IndexView, acc: Seq<IndexRecord>, ks: Seq<(KeyFields, Seq<Seq<char>>)>, kl: Seq<char>) -> Seq<IndexRecord>
    decreases ks.len(),
{
    if ks.len() == 0 {
        acc
    } else {
        let prev = partial_walk(v, acc, ks.drop_last(), kl);
        if partial_key(ks.last().0, kl) {
            merged(v, prev, ks.last().1)
        } else {
            prev
        }
    }
}

/// What a keyword search finds: the descriptions filed under the keyword,
/// lower-cased, then those filed under keywords that hold it, each once.
pub open spec fn keyword_search(v: IndexView, keyword: Seq<char>) -> Seq<IndexRecord> {
    let kl = lowercase(keyword);
    partial_walk(v, found_for(v, ids_under(v.keyword_map(), text_key(kl))), v.keywords, kl)
}

/// Whether `ql` occurs in one of `v`, lower-cased.
fn any_text_hit(v: &Vec<String>, ql: &String, query: Ghost<Seq<char>>) -> (r: bool)
    requires
        ql@ == lowercase(query@),
    ensures
        r == any_hit(v@, query@),
{
    for i in 0..v.len()
        invariant
            ql@ == lowercase(query@),
            forall|j: int| 0 <= j < i ==> !hit(#[trigger] v@[j]@, query@),
    {
        let low = to_lower(v[i].as_str());
        if text_contains(low.as_str(), ql.as_str()) {
            assert(hit(v@[i as int]@, query@));
            return true;
        }
    }
    false
}

/// Whether `ql` occurs in the name or description of one of `m`, lower-cased.
fn any_method_text_hit(m: &Vec<Method>, ql: &String, query: Ghost<Seq<char>>) -> (r: bool)
    requires
        ql@ == lowercase(query@),
    ensures
        r == any_method_hit(methods_view(m@), query@),
{
    let ghost mv = methods_view(m@);
    for i in 0..m.len()
        invariant
            ql@ == lowercase(query@),
            mv == methods_view(m@),
            forall|j: int| 0 <= j < i ==> !hit(#[trigger] mv[j].name@, query@),
            forall|j: int| 0 <= j < i ==> !hit(#[trigger] mv[j].description@, query@),
    {
        assert(mv[i as int] == m@[i as int]@);
        let name = to_lower(m[i].name.as_str());
        let desc = to_lower(m[i].description.as_str());
        let in_name = text_contains(name.as_str(), ql.as_str());
        let in_desc = text_contains(desc.as_str(), ql.as_str());
        assert(in_name == hit(mv[i as int].name@, query@));
        assert(in_desc == hit(mv[i as int].description@, query@));
        if in_name || in_desc {
            return true;
        }
    }
    false
}

/// Whether a description with id `id` is in `out`.
fn holds_id(out: &Vec<AioIndex>, id: &String) -> (r: bool)
    ensures
        r == has_index_id(out@.map_values(|x: AioIndex| x@), id@),
{
    let ghost s = out@.map_values(|x: AioIndex| x@);
    for j in 0..out.len()
        invariant
            s == out@.map_values(|x: AioIndex| x@),
            forall|k: int| 0 <= k < j ==> (#[trigger] s[k]).id@ != id@,
    {
        assert(s[j as int] == out@[j as int]@);
        if out[j].id == *id {
            return true;
        }
    }
    false
}

impl AioIndexManager {
    /// The descriptions in which `query`, lower-cased, occurs in the id,
    /// description, author, a method's name or description, a keyword or a scenario
    /// phrase, lower-cased, in the order of their ids; nothing for an empty query.
    pub fn search_full_text(&self, query: &str) -> (r: Vec<AioIndex>)
        requires
            self.wf(),
        ensures
            query@.len() == 0 ==> r@.len() == 0,
            query@.len() > 0 ==> r@.map_values(|x: AioIndex| x@) == index_values(self@.indices).filter(
                |x: IndexRecord| text_matches(x, query@),
            ),
    {
        if query.is_empty() {
            return Vec::new();
        }
        let ql = to_lower(query);
        let n = self.indices.len();
        let ghost vals = index_values(self@.indices);
        let mut out: Vec<AioIndex> = Vec::new();
        for i in 0..n
            invariant
                n == self.indices.key_seq().len(),
                vals == index_values(self@.indices),
                vals.len() == n,
                ql@ == lowercase(query@),
                out@.map_values(|x: AioIndex| x@) == vals.take(i as int).filter(|x: IndexRecord| text_matches(x, query@)),
        {
            proof {
                reveal_with_fuel(Seq::<_>::filter, 1);
                assert(vals.take(i + 1).drop_last() =~= vals.take(i as int));
            }
            let (_, x) = self.indices.entry_at(i);
            assert(vals[i as int] == x@);
            let id_low = to_lower(x.id.as_str());
            let desc_low = to_lower(x.description.as_str());
            let author_low = to_lower(x.source.author.as_str());
            let found = text_contains(id_low.as_str(), ql.as_str()) || text_contains(desc_low.as_str(), ql.as_str())
                || text_contains(author_low.as_str(), ql.as_str())
                || any_method_text_hit(&x.methods, &ql, Ghost(query@))
                || any_text_hit(&x.keywords, &ql, Ghost(query@))
                || any_text_hit(&x.scenarios, &ql, Ghost(query@));
            assert(found == text_matches(x@, query@));
            if found {
                let c = x.clone();
                let ghost before = out@;
                out.push(c);
                proof {
                    assert(out@.map_values(|x: AioIndex| x@) =~= before.map_values(|x: AioIndex| x@).push(c@));
                }
            }
        }
        assert(vals.take(n as int) =~= vals);
        out
    }

    /// Appends to `out` the descriptions that `ids` are filed under, skipping ids not
    /// filed; with `dedupe`, also those whose id `out` holds already.
    fn collect(&self, out: &mut Vec<AioIndex>, ids: &Vec<String>, dedupe: bool)
        requires
            self.wf(),
        ensures
            dedupe ==> final(out)@.map_values(|x: AioIndex| x@) == merged(
                self@,
                old(out)@.map_values(|x: AioIndex| x@),
                texts_view(ids@),
            ),
            !dedupe ==> final(out)@.map_values(|x: AioIndex| x@) == old(out)@.map_values(|x: AioIndex| x@) + found_for(
                self@,
                texts_view(ids@),
            ),
    {
        let ghost start = old(out)@.map_values(|x: AioIndex| x@);
        let ghost tv = texts_view(ids@);
        let n = ids.len();
        for i in 0..n
            invariant
                self.wf(),
                n == ids@.len(),
                tv == texts_view(ids@),
                start == old(out)@.map_values(|x: AioIndex| x@),
                dedupe ==> out@.map_values(|x: AioIndex| x@) == merged(self@, start, tv.take(i as int)),
                !dedupe ==> out@.map_values(|x: AioIndex| x@) == start + found_for(self@, tv.take(i as int)),
        {
            proof {
                assert(tv.take(i + 1).drop_last() =~= tv.take(i as int));
                assert(tv.take(i + 1).last() == ids@[i as int]@);
            }
            match self.read(ids[i].as_str()) {
                Some(x) => {
                    let skip = if dedupe { holds_id(out, &x.id) } else { false };
                    if !skip {
                        let ghost before = out@;
                        let ghost xv = x@;
                        out.push(x);
                        proof {
                            assert(out@.map_values(|x: AioIndex| x@) =~= before.map_values(|x: AioIndex| x@).push(xv));
                            if !dedupe {
                                assert(start + found_for(self@, tv.take(i as int)).push(xv) =~= (start + found_for(
                                    self@,
                                    tv.take(i as int),
                                )).push(xv));
                            }
                        }
                    }
                },
                None => {},
            }
        }
        proof {
            assert(tv.take(n as int) =~= tv);
        }
    }

    /// The descriptions filed under `keyword`, lower-cased, then those filed under
    /// the keywords that hold it (walked in order), each description once.
    #[verifier::rlimit(40)]
    pub fn search_by_keyword(&self, keyword: &str) -> (r: Vec<AioIndex>)
        requires
            self.wf(),
        ensures
            r@.map_values(|x: AioIndex| x@) == keyword_search(self@, keyword@),
    {
        proof {
            self.lemma_maps();
        }
        let kl = to_lower(keyword);
        let mut out: Vec<AioIndex> = Vec::new();
        match self.keyword_index.get(&kl) {
            Some(ids) => {
                self.collect(&mut out, &ids.0, false);
            },
            None => {},
        }
        proof {
            assert(out@.map_values(|x: AioIndex| x@) =~= found_for(
                self@,
                ids_under(self@.keyword_map(), text_key(lowercase(keyword@))),
            ));
        }
        let ghost first = out@.map_values(|x: AioIndex| x@);
        let ghost ks = self@.keywords;
        let n = self.keyword_index.len();
        for i in 0..n
            invariant
                self.wf(),
                n == self.keyword_index.key_seq().len(),
                ks == self@.keywords,
                ks.len() == n,
                kl@ == lowercase(keyword@),
                out@.map_values(|x: AioIndex| x@) == partial_walk(self@, first, ks.take(i as int), kl@),
        {
            proof {
                assert(ks.take(i + 1).drop_last() =~= ks.take(i as int));
            }
            let (key, ids) = self.keyword_index.entry_at(i);
            let ghost e = ks[i as int];
            proof {
                assert(e.0 == self.keyword_index.key_seq()[i as int]);
                assert(e.1 == texts_view(ids.0@));
                lemma_text_key_injective(key@, kl@);
            }
            let take = text_contains(key.as_str(), kl.as_str()) && *key != kl;
            assert(take == partial_key(e.0, kl@));
            if take {
                self.collect(&mut out, &ids.0, true);
            }
        }
        proof {
            assert(ks.take(n as int) =~= ks);
        }
        out
    }
}

/// The strings among `items`, in order.
pub open spec fn strings_in(items: Seq<JsonValue>) -> Seq<String>
    decreases items.len(),
{
    if items.len() == 0 {
        Seq::empty()
    } else {
        let prev = strings_in(items.drop_last());
        match items.last() {
            JsonValue::Str(s) => prev.push(s),
            _ => prev,
        }
    }
}

/// A member as a list of the strings it holds, when it is an array.
pub open spec fn string_list(v: Option<JsonValue>) -> Option<Seq<String>> {
    match v {
        Some(JsonValue::Array(a)) => Some(strings_in(a@)),
        _ => None,
    }
}

/// A member as a string, when it is one.
pub open spec fn text_member(v: Option<JsonValue>) -> Option<String> {
    match v {
        Some(JsonValue::Str(s)) => Some(s),
        _ => None,
    }
}

/// What applying the update document `v` to the description filed under `id`
/// does, from `s0` to `s1` with answer `r`.
pub open spec fn update_outcome(s0: IndexView, s1: IndexView, id: Seq<char>, v: JsonValue, r: Result<(), String>) -> bool {
    match s0.index(id) {
        None => (r matches Err(e) && e@ == "Index with ID "@ + id + " not found"@) && s1 == s0,
        Some(x) => match v {
            JsonValue::Object(fs) => {
                &&& r is Ok
                &&& map_of(s1.indices) == map_of(s0.indices).insert(text_key(id), described(x, fs@))
                &&& s1.keyword_map() == keywords_added(keywords_removed(s0.keyword_map(), x.keywords, id), x.keywords, id)
            },
            _ => (r matches Err(e) && e@ == "Invalid JSON: expected object"@) && s1 == s0,
        },
    }
}

/// A description after an update document: its description becomes the
/// document's `description` member when that is a string.
pub open spec fn described(x: IndexRecord, fs: Seq<(String, JsonValue)>) -> IndexRecord {
    match text_member(field(fs, "description"@)) {
        Some(d) => IndexRecord { description: d, ..x },
        None => x,
    }
}

/// A member as a string, or `d` when it is missing or no string.
pub open spec fn text_or(v: Option<JsonValue>, d: String) -> String {
    match v {
        Some(JsonValue::Str(s)) => s,
        _ => d,
    }
}

/// The schema property that a JSON object describes: its `type` (or `dflt`),
/// `description`, `default`, `enum`, `items`, `properties` and `required`
/// members; nothing for a value that is no object.
pub open spec fn schema_of(v: JsonValue, dflt: String) -> Option<SchemaRecord>
    decreases v, 0nat,
{
    match v {
        JsonValue::Object(fs) => {
            let f = fs@;
            let ii = field_index(f, "items"@);
            let pi = field_index(f, "properties"@);
            proof {
                lemma_field_index(f, "items"@);
                lemma_field_index(f, "properties"@);
            }
            Some(
                SchemaRecord::Node {
                    property_type: text_or(field(f, "type"@), dflt),
                    description: text_member(field(f, "description"@)),
                    default: text_member(field(f, "default"@)),
                    enum_values: string_list(field(f, "enum"@)),
                    items: if 0 <= ii < f.len() {
                        proof {
                            assert(decreases_to!(v => fs));
                            assert(decreases_to!(fs => fs@));
                            assert(decreases_to!(fs@ => fs@[ii]));
                        }
                        match schema_of(f[ii].1, dflt) {
                            Some(r) => Some(Box::new(r)),
                            None => None,
                        }
                    } else {
                        None
                    },
                    properties: if 0 <= pi < f.len() {
                        match f[pi].1 {
                            JsonValue::Object(ps) => {
                                proof {
                                    assert(decreases_to!(v => fs));
                                    assert(decreases_to!(fs => fs@));
                                    assert(decreases_to!(fs@ => fs@[pi]));
                                    assert(decreases_to!(fs@[pi] => fs@[pi].1));
                                    assert(decreases_to!(fs@[pi].1 => ps));
                                    assert(decreases_to!(ps => ps@));
                                }
                                Some(props_of(ps@, dflt))
                            },
                            _ => None,
                        }
                    } else {
                        None
                    },
                    required: string_list(field(f, "required"@)),
                },
            )
        },
        _ => None,
    }
}

/// The named schema properties that the members of a JSON object describe, in
/// order, skipping members that are no objects.
pub open spec fn props_of(ps: Seq<(String, JsonValue)>, dflt: String) -> Seq<(String, SchemaRecord)>
    decreases ps, 1nat,
{
    if ps.len() == 0 {
        Seq::empty()
    } else {
        let prev = props_of(ps.drop_last(), dflt);
        proof {
            assert(decreases_to!(ps => ps[ps.len() - 1]));
        }
        match schema_of(ps.last().1, dflt) {
            Some(r) => prev.push((ps.last().0, r)),
            None => prev,
        }
    }
}

/// The strings among `items`, in order.
fn strings_of(items: &Vec<JsonValue>) -> (r: Vec<String>)
    ensures
        r@ == strings_in(items@),
{
    let mut out: Vec<String> = Vec::new();
    let n = items.len();
    for i in 0..n
        invariant
            n == items@.len(),
            out@ == strings_in(items@.take(i as int)),
    {
        proof {
            assert(items@.take(i + 1).drop_last() =~= items@.take(i as int));
        }
        match &items[i] {
            JsonValue::Str(s) => {
                out.push(s.clone());
            },
            _ => {},
        }
    }
    assert(items@.take(n as int) =~= items@);
    out
}

/// The member `key` of `fs`, when there is one.
fn member<'a>(fs: &'a Vec<(String, JsonValue)>, key: &str) -> (r: Option<&'a JsonValue>)
    ensures
        match r {
            Some(v) => field(fs@, key@) == Some(*v),
            None => field(fs@, key@) is None,
        },
{
    proof {
        lemma_field_index(fs@, key@);
    }
    match find_field(fs, key) {
        Some(i) => Some(&fs[i].1),
        None => None,
    }
}

/// The member `key` of `fs` as a list of strings, when it is an array.
fn string_list_of(fs: &Vec<(String, JsonValue)>, key: &str) -> (r: Option<Vec<String>>)
    ensures
        match (r, string_list(field(fs@, key@))) {
            (Some(a), Some(b)) => a@ == b,
            (None, None) => true,
            _ => false,
        },
{
    match member(fs, key) {
        Some(JsonValue::Array(a)) => Some(strings_of(a)),
        _ => None,
    }
}

/// The member `key` of `fs` as a string, when it is one.
fn text_member_of(fs: &Vec<(String, JsonValue)>, key: &str) -> (r: Option<String>)
    ensures
        r == text_member(field(fs@, key@)),
{
    match member(fs, key) {
        Some(JsonValue::Str(s)) => Some(s.clone()),
        _ => None,
    }
}

/// The member `key` of `fs` as a string, or `d`.
fn text_or_of(fs: &Vec<(String, JsonValue)>, key: &str, d: &String) -> (r: String)
    ensures
        r == text_or(field(fs@, key@), *d),
{
    match member(fs, key) {
        Some(JsonValue::Str(s)) => s.clone(),
        _ => d.clone(),
    }
}

/// Reads a schema property from a JSON object; `dflt` is the type of a property
/// without one.
fn parse_schema_property(v: &JsonValue, dflt: &String) -> (r: Option<SchemaProperty>)
    ensures
        match (r, schema_of(*v, *dflt)) {
            (Some(p), Some(s)) => schema_view(p) == s,
            (None, None) => true,
            _ => false,
        },
    decreases v, 0nat,
{
    match v {
        JsonValue::Object(fs) => {
            let ghost f = fs@;
            proof {
                lemma_field_index(f, "items"@);
                lemma_field_index(f, "properties"@);
            }
            let items = match find_field(fs, "items") {
                Some(i) => {
                    proof {
                        assert(decreases_to!(fs@ => fs@[i as int]));
                    }
                    match parse_schema_property(&fs[i].1, dflt) {
                        Some(p) => Some(Box::new(p)),
                        None => None,
                    }
                },
                None => None,
            };
            let properties = match find_field(fs, "properties") {
                Some(i) => match &fs[i].1 {
                    JsonValue::Object(ps) => {
                        proof {
                            assert(decreases_to!(fs@ => fs@[i as int]));
                            assert(decreases_to!(fs@[i as int] => fs@[i as int].1));
                        }
                        Some(parse_props(ps, dflt))
                    },
                    _ => None,
                },
                None => None,
            };
            let r = SchemaProperty {
                property_type: text_or_of(fs, "type", dflt),
                description: text_member_of(fs, "description"),
                default: text_member_of(fs, "default"),
                enum_values: string_list_of(fs, "enum"),
                items,
                properties,
                required: string_list_of(fs, "required"),
            };
            Some(r)
        },
        _ => None,
    }
}

/// Reads the named schema properties of a JSON object, in order, skipping members
/// that are no objects.
fn parse_props(ps: &Vec<(String, JsonValue)>, dflt: &String) -> (r: Vec<(String, SchemaProperty)>)
    ensures
        props_view(r@) == props_of(ps@, *dflt),
    decreases ps, 1nat,
{
    let mut out: Vec<(String, SchemaProperty)> = Vec::new();
    let n = ps.len();
    for i in 0..n
        invariant
            n == ps@.len(),
            props_view(out@) == props_of(ps@.take(i as int), *dflt),
    {
        proof {
            assert(ps@.take(i + 1).drop_last() =~= ps@.take(i as int));
            assert(decreases_to!(ps => ps@[i as int].1));
        }
        match parse_schema_property(&ps[i].1, dflt) {
            Some(p) => {
                let ghost before = out@;
                out.push((ps[i].0.clone(), p));
                proof {
                    assert(out@.drop_last() =~= before);
                }
            },
            None => {},
        }
    }
    assert(ps@.take(n as int) =~= ps@);
    out
}

/// A member as a list of strings, or nothing when it is no array.
pub open spec fn strings_or_none(v: Option<JsonValue>) -> Seq<String> {
    match string_list(v) {
        Some(l) => l,
        None => Seq::empty(),
    }
}

/// The method that a JSON object describes: its `name` and `description` (or
/// `empty`), its `parameters`, and its `inputSchema` with the schema's `type` (or
/// `object_type`), `properties` and `required`.
pub open spec fn method_of(v: JsonValue, empty: String, object_type: String, dflt: String) -> Option<MethodRecord> {
    match v {
        JsonValue::Object(fs) => {
            let f = fs@;
            Some(
                MethodRecord {
                    name: text_or(field(f, "name"@), empty),
                    description: text_or(field(f, "description"@), empty),
                    required_params: string_list(field(f, "parameters"@)),
                    input_schema: match field(f, "inputSchema"@) {
                        Some(JsonValue::Object(sc)) => Some(
                            InputSchemaRecord {
                                schema_type: text_or(field(sc@, "type"@), object_type),
                                properties: match field(sc@, "properties"@) {
                                    Some(JsonValue::Object(ps)) => props_of(ps@, dflt),
                                    _ => Seq::empty(),
                                },
                                required: string_list(field(sc@, "required"@)),
                            },
                        ),
                        _ => None,
                    },
                },
            )
        },
        _ => None,
    }
}

/// The methods that the objects among `items` describe, in order.
pub open spec fn methods_of(items: Seq<JsonValue>, empty: String, object_type: String, dflt: String) -> Seq<MethodRecord>
    decreases items.len(),
{
    if items.len() == 0 {
        Seq::empty()
    } else {
        let prev = methods_of(items.drop_last(), empty, object_type, dflt);
        match method_of(items.last(), empty, object_type, dflt) {
            Some(m) => prev.push(m),
            None => prev,
        }
    }
}

/// The source that a member describes: its `author`, `version` and `github` (each
/// or `empty`), all `empty` when the member is no object.
pub open spec fn source_of(v: Option<JsonValue>, empty: String) -> Source {
    match v {
        Some(JsonValue::Object(s)) => Source {
            author: text_or(field(s@, "author"@), empty),
            version: text_or(field(s@, "version"@), empty),
            github: text_or(field(s@, "github"@), empty),
        },
        _ => Source { author: empty, version: empty, github: empty },
    }
}

/// The service description that the members `f` of a JSON object give, filed
/// under `id`.
pub open spec fn index_of_json(id: String, f: Seq<(String, JsonValue)>, empty: String, object_type: String, dflt: String) -> IndexRecord {
    IndexRecord {
        id,
        description: text_or(field(f, "description"@), empty),
        transport: strings_or_none(field(f, "transport"@)),
        methods: match field(f, "methods"@) {
            Some(JsonValue::Array(a)) => methods_of(a@, empty, object_type, dflt),
            _ => Seq::empty(),
        },
        source: source_of(field(f, "source"@), empty),
        keywords: strings_or_none(field(f, "functional_keywords"@)),
        scenarios: strings_or_none(field(f, "scenario_phrases"@)),
    }
}

fn strings_or_empty(fs: &Vec<(String, JsonValue)>, key: &str) -> (r: Vec<String>)
    ensures
        r@ == strings_or_none(field(fs@, key@)),
{
    match string_list_of(fs, key) {
        Some(l) => l,
        None => Vec::new(),
    }
}

fn parse_method(v: &JsonValue, empty: &String, object_type: &String, dflt: &String) -> (r: Option<Method>)
    ensures
        match (r, method_of(*v, *empty, *object_type, *dflt)) {
            (Some(m), Some(n)) => m@ == n,
            (None, None) => true,
            _ => false,
        },
{
    match v {
        JsonValue::Object(fs) => {
            let input_schema = match member(fs, "inputSchema") {
                Some(JsonValue::Object(sc)) => {
                    let properties = match member(sc, "properties") {
                        Some(JsonValue::Object(ps)) => parse_props(ps, dflt),
                        _ => Vec::new(),
                    };
                    let ghost pv = props_view(properties@);
                    assert(properties@.len() == 0 ==> pv =~= Seq::<(String, SchemaRecord)>::empty());
                    Some(
                        InputSchema {
                            schema_type: text_or_of(sc, "type", object_type),
                            properties,
                            required: string_list_of(sc, "required"),
                        },
                    )
                },
                _ => None,
            };
            Some(
                Method {
                    name: text_or_of(fs, "name", empty),
                    description: text_or_of(fs, "description", empty),
                    required_params: string_list_of(fs, "parameters"),
                    input_schema,
                },
            )
        },
        _ => None,
    }
}

fn parse_methods(items: &Vec<JsonValue>, empty: &String, object_type: &String, dflt: &String) -> (r: Vec<Method>)
    ensures
        methods_view(r@) == methods_of(items@, *empty, *object_type, *dflt),
{
    let mut out: Vec<Method> = Vec::new();
    let n = items.len();
    for i in 0..n
        invariant
            n == items@.len(),
            methods_view(out@) == methods_of(items@.take(i as int), *empty, *object_type, *dflt),
    {
        proof {
            assert(items@.take(i + 1).drop_last() =~= items@.take(i as int));
        }
        match parse_method(&items[i], empty, object_type, dflt) {
            Some(m) => {
                let ghost before = out@;
                let ghost mv = m@;
                out.push(m);
                proof {
                    assert(methods_view(out@) =~= methods_view(before).push(mv));
                }
            },
            None => {},
        }
    }
    assert(items@.take(n as int) =~= items@);
    out
}

impl AioIndexManager {
    /// Files the service description that the JSON object `json_str` gives under
    /// the id `name`: its `description`, `transport`, `methods`, `source`,
    /// `functional_keywords` and `scenario_phrases`, each with its default when
    /// missing. Refused when the text is no JSON or no object, and as `create`
    /// refuses.
    pub fn create_from_json(&mut self, name: &str, json_str: &str) -> (r: Result<(), String>)
        requires
            old(self).wf(),
        ensures
            final(self).wf(),
            match json_from_str(json_str@) {
                Err(m) => (r matches Err(e) && e@ == "JSON parsing error: "@ + m) && final(self)@ == old(self)@,
                Ok(JsonValue::Object(fs)) => exists|x: IndexRecord, id: String, empty: String, object_type: String, dflt: String|
                    {
                        &&& id@ == name@
                        &&& empty@ == Seq::<char>::empty()
                        &&& object_type@ == "object"@
                        &&& dflt@ == "string"@
                        &&& x == index_of_json(id, fs@, empty, object_type, dflt)
                        &&& created(old(self)@, final(self)@, x, r)
                    },
                Ok(_) => (r matches Err(e) && e@ == "Invalid JSON: expected object"@) && final(self)@ == old(self)@,
            },
    {
        let parsed = match parse_json(json_str) {
            Ok(v) => v,
            Err(e) => {
                return Err(crate::text::concat_text("JSON parsing error: ", e.as_str()));
            },
        };
        self.create_from_value(name, parsed)
    }

    /// Registers under `name` the service that the parsed document `doc`
    /// describes; a document that is no object is refused.
    pub fn create_from_value(&mut self, name: &str, doc: JsonValue) -> (r: Result<(), String>)
        requires
            old(self).wf(),
        ensures
            final(self).wf(),
            match doc {
                JsonValue::Object(fs) => exists|x: IndexRecord, id: String, empty: String, object_type: String, dflt: String|
                    {
                        &&& id@ == name@
                        &&& empty@ == Seq::<char>::empty()
                        &&& object_type@ == "object"@
                        &&& dflt@ == "string"@
                        &&& x == index_of_json(id, fs@, empty, object_type, dflt)
                        &&& created(old(self)@, final(self)@, x, r)
                    },
                _ => (r matches Err(e) && e@ == "Invalid JSON: expected object"@) && final(self)@ == old(self)@,
            },
    {
        let fs = match &doc {
            JsonValue::Object(fs) => fs,
            _ => {
                return Err("Invalid JSON: expected object".to_string());
            },
        };
        let empty = String::new();
        let object_type = "object".to_string();
        let dflt = "string".to_string();
        let methods = match member(fs, "methods") {
            Some(JsonValue::Array(a)) => parse_methods(a, &empty, &object_type, &dflt),
            _ => Vec::new(),
        };
        let source = match member(fs, "source") {
            Some(JsonValue::Object(sc)) => Source {
                author: text_or_of(sc, "author", &empty),
                version: text_or_of(sc, "version", &empty),
                github: text_or_of(sc, "github", &empty),
            },
            _ => Source { author: empty.clone(), version: empty.clone(), github: empty.clone() },
        };
        let index = AioIndex {
            id: name.to_string(),
            description: text_or_of(fs, "description", &empty),
            transport: strings_or_empty(fs, "transport"),
            methods,
            source,
            keywords: strings_or_empty(fs, "functional_keywords"),
            scenarios: strings_or_empty(fs, "scenario_phrases"),
        };
        let ghost x = index@;
        proof {
            assert(x.methods == index_of_json(index.id, fs@, empty, object_type, dflt).methods);
            assert(x == index_of_json(index.id, fs@, empty, object_type, dflt));
        }
        self.create(index)
    }

    /// Applies an update document to the description filed under `id`: its
    /// `description` member, when a string, replaces the description. A text
    /// that is no JSON, an id not filed, and a document that is no object are
    /// refused, in that order.
    pub fn update_aio_index(&mut self, id: &str, json_str: &str) -> (r: Result<(), String>)
        requires
            old(self).wf(),
        ensures
            final(self).wf(),
            match json_from_str(json_str@) {
                Err(m) => (r matches Err(e) && e@ == "Invalid JSON: "@ + m) && final(self)@ == old(self)@,
                Ok(v) => update_outcome(old(self)@, final(self)@, id@, v, r),
            },
    {
        let parsed = match parse_json(json_str) {
            Ok(v) => v,
            Err(e) => {
                return Err(crate::text::concat_text("Invalid JSON: ", e.as_str()));
            },
        };
        self.update_from_value(id, parsed)
    }

    /// Applies the parsed update document `doc` to the description filed under
    /// `id`: its `description` member, when a string, replaces the description.
    /// An id not filed, then a document that is no object, are refused.
    pub fn update_from_value(&mut self, id: &str, doc: JsonValue) -> (r: Result<(), String>)
        requires
            old(self).wf(),
        ensures
            final(self).wf(),
            update_outcome(old(self)@, final(self)@, id@, doc, r),
    {
        let mut index = match self.read(id) {
            Some(x) => x,
            None => {
                return Err(concat3("Index with ID ", id, " not found"));
            },
        };
        match doc {
            JsonValue::Object(fs) => {
                match text_member_of(&fs, "description") {
                    Some(d) => {
                        index.description = d;
                    },
                    None => {},
                }
                self.update(id, index)
            },
            _ => Err("Invalid JSON: expected object".to_string()),
        }
    }

}

} // verus!
