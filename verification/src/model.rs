//! The tagged-value tree decoded from a script-execution response, and the
//! flattening transform that projects one resource of that tree into a flat
//! record.
//!
//! Flattening is total and best-effort: a field whose value has an unexpected
//! shape leaves the corresponding output at its default (empty string or empty
//! mapping), and a malformed entry inside an `attributes`/`metadata` sequence
//! is skipped on its own, without discarding the rest of the record.

use vstd::prelude::*;

verus! {

/// One node of the tagged-value tree: a string primitive, an ordered
/// sequence, a key/value mapping pair, or anything else (carried only so that
/// the flattener can skip it).
pub enum TaggedValue {
    Text(String),
    Sequence(Vec<TaggedValue>),
    Pair(Box<TaggedValue>, Box<TaggedValue>),
    Other,
}

/// The typed payload of a resource field: the declared type tag and the value.
pub struct FieldValue {
    pub data_type: String,
    pub value: TaggedValue,
}

/// A named field of a resource.
pub struct Field {
    pub name: String,
    pub value: FieldValue,
}

/// One resource: an ordered field list and an identifier.
pub struct Resource {
    pub fields: Vec<Field>,
    pub id: String,
}

/// One item of the response array: a type tag wrapping a resource.
pub struct Item {
    pub data_type: String,
    pub value: Resource,
}

/// The decoded response root: a type tag and the item list.
pub struct Root {
    pub data_type: String,
    pub value: Vec<Item>,
}

/// A mapping from string keys to string values, held as the sequence of
/// insertions; a later insertion of a key overrides an earlier one, exactly
/// as the abstract `Map` view says.
pub struct StringMap {
    entries: Vec<(String, String)>,
}

/// The abstract mapping described by a sequence of insertions, later entries
/// overriding earlier ones.
pub open spec fn map_of(entries: Seq<(String, String)>) -> Map<Seq<char>, Seq<char>>
    decreases entries.len(),
{
    if entries.len() == 0 {
        Map::empty()
    } else {
        map_of(entries.drop_last()).insert(entries.last().0@, entries.last().1@)
    }
}

impl View for StringMap {
    type V = Map<Seq<char>, Seq<char>>;

    closed spec fn view(&self) -> Map<Seq<char>, Seq<char>> {
        map_of(self.entries@)
    }
}

proof fn lemma_map_of_absent(entries: Seq<(String, String)>, key: Seq<char>)
    requires
        forall|j: int| 0 <= j < entries.len() ==> (#[trigger] entries[j].0)@ != key,
    ensures
        !map_of(entries).contains_key(key),
    decreases entries.len(),
{
    if entries.len() > 0 {
        lemma_map_of_absent(entries.drop_last(), key);
    }
}

proof fn lemma_map_of_found(entries: Seq<(String, String)>, i: int, key: Seq<char>)
    requires
        0 <= i < entries.len(),
        entries[i].0@ == key,
        forall|j: int| i < j < entries.len() ==> (#[trigger] entries[j].0)@ != key,
    ensures
        map_of(entries).contains_key(key),
        map_of(entries)[key] == entries[i].1@,
    decreases entries.len(),
{
    if i == entries.len() - 1 {
    } else {
        lemma_map_of_found(entries.drop_last(), i, key);
    }
}

impl StringMap {
    /// An empty mapping.
    pub fn new() -> (r: StringMap)
        ensures
            r@ == Map::<Seq<char>, Seq<char>>::empty(),
    {
        StringMap { entries: Vec::new() }
    }

    /// Binds `key` to `value`, overriding any earlier binding of `key`.
    pub fn insert(&mut self, key: String, value: String)
        ensures
            final(self)@ == old(self)@.insert(key@, value@),
    {
        proof {
            assert(self.entries@.push((key, value)).drop_last() =~= self.entries@);
        }
        self.entries.push((key, value));
    }

    /// The value bound to `key`, if any.
    pub fn get(&self, key: &String) -> (r: Option<&String>)
        ensures
            match r {
                Some(v) => self@.contains_key(key@) && v@ == self@[key@],
                None => !self@.contains_key(key@),
            },
    {
        let mut i: usize = self.entries.len();
        while i > 0
            invariant
                i <= self.entries.len(),
                forall|j: int| i <= j < self.entries@.len() ==> (#[trigger] self.entries@[j].0)@
                    != key@,
            decreases i,
        {
            i = i - 1;
            if self.entries[i].0 == *key {
                proof {
                    lemma_map_of_found(self.entries@, i as int, key@);
                }
                return Some(&self.entries[i].1);
            }
        }
        proof {
            lemma_map_of_absent(self.entries@, key@);
        }
        None
    }

    /// The insertions the mapping was built from, in order: folding them,
    /// later entries overriding earlier ones, gives the mapping itself.
    pub fn entries(&self) -> (r: &Vec<(String, String)>)
        ensures
            map_of(r@) == self@,
    {
        &self.entries
    }

    /// Whether the mapping binds no key at all.
    pub fn is_empty(&self) -> (r: bool)
        ensures
            r <==> self@ == Map::<Seq<char>, Seq<char>>::empty(),
    {
        proof {
            if self.entries@.len() > 0 {
                assert(self@.contains_key(self.entries@.last().0@));
            } else {
                assert(self@ =~= Map::<Seq<char>, Seq<char>>::empty());
            }
        }
        self.entries.is_empty()
    }
}

/// The flattened record produced from one resource. Every field defaults to
/// the empty string or the empty mapping when the source field is absent or
/// has an unexpected shape.
pub struct FlattenedItem {
    pub uuid: String,
    pub id: String,
    pub attributes: StringMap,
    pub name: String,
    pub description: String,
    pub thumbnail: String,
    pub metadata: StringMap,
}

/// The abstract value of a flattened record.
#[verifier::ext_equal]
pub struct FlatView {
    pub uuid: Seq<char>,
    pub id: Seq<char>,
    pub attributes: Map<Seq<char>, Seq<char>>,
    pub name: Seq<char>,
    pub description: Seq<char>,
    pub thumbnail: Seq<char>,
    pub metadata: Map<Seq<char>, Seq<char>>,
}

impl View for FlattenedItem {
    type V = FlatView;

    open spec fn view(&self) -> FlatView {
        FlatView {
            uuid: self.uuid@,
            id: self.id@,
            attributes: self.attributes@,
            name: self.name@,
            description: self.description@,
            thumbnail: self.thumbnail@,
            metadata: self.metadata@,
        }
    }
}

/// The record every field of which is at its default.
pub open spec fn empty_flat() -> FlatView {
    FlatView {
        uuid: Seq::<char>::empty(),
        id: Seq::<char>::empty(),
        attributes: Map::<Seq<char>, Seq<char>>::empty(),
        name: Seq::<char>::empty(),
        description: Seq::<char>::empty(),
        thumbnail: Seq::<char>::empty(),
        metadata: Map::<Seq<char>, Seq<char>>::empty(),
    }
}

/// The characters of a string-primitive node, if the node is one.
pub open spec fn text_of(v: TaggedValue) -> Option<Seq<char>> {
    match v {
        TaggedValue::Text(s) => Some(s@),
        _ => None,
    }
}

/// The key and value of a mapping-pair node whose two sides are both string
/// primitives; any other shape is `None` and is skipped by the flattener.
pub open spec fn pair_text(v: TaggedValue) -> Option<(Seq<char>, Seq<char>)> {
    match v {
        TaggedValue::Pair(k, w) => match (*k, *w) {
            (TaggedValue::Text(ks), TaggedValue::Text(vs)) => Some((ks@, vs@)),
            _ => None,
        },
        _ => None,
    }
}

/// The well-shaped key/value pairs among the entries of a sequence node, in
/// order; malformed entries are dropped one by one.
pub open spec fn string_pairs(entries: Seq<TaggedValue>) -> Seq<(Seq<char>, Seq<char>)>
    decreases entries.len(),
{
    if entries.len() == 0 {
        Seq::<(Seq<char>, Seq<char>)>::empty()
    } else {
        match pair_text(entries.last()) {
            Some(p) => string_pairs(entries.drop_last()).push(p),
            None => string_pairs(entries.drop_last()),
        }
    }
}

/// Inserts the pairs into the mapping in order, later pairs overriding
/// earlier ones of the same key.
pub open spec fn insert_pairs(
    m: Map<Seq<char>, Seq<char>>,
    ps: Seq<(Seq<char>, Seq<char>)>,
) -> Map<Seq<char>, Seq<char>>
    decreases ps.len(),
{
    if ps.len() == 0 {
        m
    } else {
        insert_pairs(m, ps.drop_last()).insert(ps.last().0, ps.last().1)
    }
}

/// The effect of one field on the accumulated record: a recognized scalar
/// name takes the value only when it is a string primitive; `attributes` and
/// `metadata` consume the value only when it is a sequence, inserting its
/// well-shaped pairs; every other shape or name leaves the record as it was.
pub open spec fn apply_field(acc: FlatView, f: Field) -> FlatView {
    let n = f.name@;
    let v = f.value.value;
    if n == "uuid"@ {
        match text_of(v) {
            Some(s) => FlatView { uuid: s, ..acc },
            None => acc,
        }
    } else if n == "id"@ {
        match text_of(v) {
            Some(s) => FlatView { id: s, ..acc },
            None => acc,
        }
    } else if n == "attributes"@ {
        match v {
            TaggedValue::Sequence(entries) => FlatView {
                attributes: insert_pairs(acc.attributes, string_pairs(entries@)),
                ..acc
            },
            _ => acc,
        }
    } else if n == "name"@ {
        match text_of(v) {
            Some(s) => FlatView { name: s, ..acc },
            None => acc,
        }
    } else if n == "description"@ {
        match text_of(v) {
            Some(s) => FlatView { description: s, ..acc },
            None => acc,
        }
    } else if n == "thumbnail"@ {
        match text_of(v) {
            Some(s) => FlatView { thumbnail: s, ..acc },
            None => acc,
        }
    } else if n == "metadata"@ {
        match v {
            TaggedValue::Sequence(entries) => FlatView {
                metadata: insert_pairs(acc.metadata, string_pairs(entries@)),
                ..acc
            },
            _ => acc,
        }
    } else {
        acc
    }
}

/// Folds the fields over the accumulated record, first field first, so that
/// a later field of the same name overrides an earlier one.
pub open spec fn flatten_fields(fields: Seq<Field>, acc: FlatView) -> FlatView
    decreases fields.len(),
{
    if fields.len() == 0 {
        acc
    } else {
        flatten_fields(fields.drop_first(), apply_field(acc, fields.first()))
    }
}

/// What flattening a resource with these fields returns.
pub open spec fn flatten_spec(fields: Seq<Field>) -> FlatView {
    flatten_fields(fields, empty_flat())
}

impl Resource {
    /// Projects the resource into a flat record. Total: no shape of the field
    /// list makes it fail; unrecognized names and malformed values are
    /// skipped, and a later field of a recognized name overrides an earlier
    /// one.
    pub fn flatten(&self) -> (r: FlattenedItem)
        ensures
            r@ == flatten_spec(self.fields@),
    {
        let k_uuid: String = String::from_str("uuid");
        let k_id: String = String::from_str("id");
        let k_attributes: String = String::from_str("attributes");
        let k_name: String = String::from_str("name");
        let k_description: String = String::from_str("description");
        let k_thumbnail: String = String::from_str("thumbnail");
        let k_metadata: String = String::from_str("metadata");
        let mut out = FlattenedItem {
            uuid: String::new(),
            id: String::new(),
            attributes: StringMap::new(),
            name: String::new(),
            description: String::new(),
            thumbnail: String::new(),
            metadata: StringMap::new(),
        };
        proof {
            assert(out@ =~= empty_flat());
            assert(self.fields@.skip(0) =~= self.fields@);
        }
        let n = self.fields.len();
        let mut i: usize = 0;
        while i < n
            invariant
                n == self.fields@.len(),
                i <= n,
                flatten_fields(self.fields@.skip(i as int), out@) == flatten_spec(self.fields@),
                k_uuid@ == "uuid"@,
                k_id@ == "id"@,
                k_attributes@ == "attributes"@,
                k_name@ == "name"@,
                k_description@ == "description"@,
                k_thumbnail@ == "thumbnail"@,
                k_metadata@ == "metadata"@,
            decreases n - i,
        {
            let ghost pre = out@;
            let ghost f = self.fields@[i as int];
            let field = &self.fields[i];
            if field.name == k_uuid {
                if let TaggedValue::Text(s) = &field.value.value {
                    out.uuid = s.clone();
                }
            } else if field.name == k_id {
                if let TaggedValue::Text(s) = &field.value.value {
                    out.id = s.clone();
                }
            } else if field.name == k_attributes {
                if let TaggedValue::Sequence(entries) = &field.value.value {
                    insert_entries(&mut out.attributes, entries);
                }
            } else if field.name == k_name {
                if let TaggedValue::Text(s) = &field.value.value {
                    out.name = s.clone();
                }
            } else if field.name == k_description {
                if let TaggedValue::Text(s) = &field.value.value {
                    out.description = s.clone();
                }
            } else if field.name == k_thumbnail {
                if let TaggedValue::Text(s) = &field.value.value {
                    out.thumbnail = s.clone();
                }
            } else if field.name == k_metadata {
                if let TaggedValue::Sequence(entries) = &field.value.value {
                    insert_entries(&mut out.metadata, entries);
                }
            }
            proof {
                assert(out@ =~= apply_field(pre, f));
                assert(self.fields@.skip(i as int).first() == f);
                assert(self.fields@.skip(i as int).drop_first() =~= self.fields@.skip(
                    i as int + 1,
                ));
            }
            i = i + 1;
        }
        proof {
            assert(self.fields@.skip(n as int) =~= Seq::<Field>::empty());
        }
        out
    }
}

/// Inserts into the mapping every well-shaped key/value pair among the
/// entries, in order, skipping each malformed entry on its own.
fn insert_entries(m: &mut StringMap, entries: &Vec<TaggedValue>)
    ensures
        final(m)@ == insert_pairs(old(m)@, string_pairs(entries@)),
{
    let ghost m0 = m@;
    let n = entries.len();
    let mut j: usize = 0;
    while j < n
        invariant
            n == entries@.len(),
            j <= n,
            m@ == insert_pairs(m0, string_pairs(entries@.take(j as int))),
        decreases n - j,
    {
        let ghost pre = m@;
        match &entries[j] {
            TaggedValue::Pair(k, w) => {
                match (&**k, &**w) {
                    (TaggedValue::Text(ks), TaggedValue::Text(vs)) => {
                        m.insert(ks.clone(), vs.clone());
                    },
                    _ => {},
                }
            },
            _ => {},
        }
        proof {
            let tj = entries@.take(j as int + 1);
            assert(tj.drop_last() =~= entries@.take(j as int));
            assert(tj.last() == entries@[j as int]);
            match pair_text(entries@[j as int]) {
                Some(p) => {
                    assert(string_pairs(tj) == string_pairs(tj.drop_last()).push(p));
                    assert(string_pairs(tj).drop_last() =~= string_pairs(tj.drop_last()));
                },
                None => {
                    assert(string_pairs(tj) == string_pairs(tj.drop_last()));
                },
            }
        }
        j = j + 1;
    }
    proof {
        assert(entries@.take(n as int) =~= entries@);
    }
}

/// The item description submitted with the mint command; it is carried to
/// the client on the wire encoding exactly as submitted.
pub struct NFTItem {
    pub item_name: String,
    pub item_type: String,
    pub attributes: NFTAttributes,
    pub thumb_nail: String,
}

/// The single key/value attribute of a minted item.
pub struct NFTAttributes {
    pub key: String,
    pub value: String,
}

/// Whether a field would feed the `attributes` mapping: it is named
/// `attributes` and its value is tagged as a sequence.
pub open spec fn feeds_attributes(f: Field) -> bool {
    f.name@ == "attributes"@ && f.value.value is Sequence
}

/// Law: a resource none of whose fields feeds `attributes` — in particular
/// one whose `attributes` field carries a value that is not a sequence —
/// leaves the `attributes` mapping exactly as it started, so flattening such
/// a resource yields an empty `attributes` mapping rather than an error.
pub proof fn lemma_attributes_untouched(fields: Seq<Field>, acc: FlatView)
    requires
        forall|i: int| 0 <= i < fields.len() ==> !#[trigger] feeds_attributes(fields[i]),
    ensures
        flatten_fields(fields, acc).attributes == acc.attributes,
    decreases fields.len(),
{
    if fields.len() > 0 {
        assert(!feeds_attributes(fields.first()));
        assert(apply_field(acc, fields.first()).attributes == acc.attributes);
        assert(forall|i: int|
            0 <= i < fields.drop_first().len() ==> !#[trigger] feeds_attributes(
                fields.drop_first()[i],
            ));
        lemma_attributes_untouched(fields.drop_first(), apply_field(acc, fields.first()));
    }
}

} // verus!
