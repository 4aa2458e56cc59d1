//! Schema drift: the flattened field-path -> type map of each topic's JSON
//! payloads, and the differences between consecutive maps.

use vstd::prelude::*;
use crate::json::{Json, json_of, parse_json};
use crate::clock::now_millis;
use crate::keyed::{keyed, unique_keys, set_entry, find_key, lemma_keyed_has, lemma_keyed_keys, lemma_keyed_len};

verus! {

/// Type of a JSON field.
#[derive(Clone, Copy, Debug, PartialEq, Eq, Structural)]
pub enum FieldType {
    Null,
    Boolean,
    Number,
    String,
    Array,
    Object,
}

impl FieldType {
    /// The type's name for display.
    pub fn name(self) -> (r: &'static str)
        ensures
            r@ == match self {
                FieldType::Null => "null"@,
                FieldType::Boolean => "bool"@,
                FieldType::Number => "number"@,
                FieldType::String => "string"@,
                FieldType::Array => "array"@,
                FieldType::Object => "object"@,
            },
    {
        proof {
            reveal_strlit("null");
            reveal_strlit("bool");
            reveal_strlit("number");
            reveal_strlit("string");
            reveal_strlit("array");
            reveal_strlit("object");
        }
        match self {
            FieldType::Null => "null",
            FieldType::Boolean => "bool",
            FieldType::Number => "number",
            FieldType::String => "string",
            FieldType::Array => "array",
            FieldType::Object => "object",
        }
    }
}

/// Kind of a schema difference.
#[derive(Clone, Copy, Debug, PartialEq, Eq, Structural)]
pub enum ChangeType {
    FieldAdded,
    FieldRemoved,
    TypeChanged,
}

impl ChangeType {
    /// The change's mark for display: `+`, `-` or `~`.
    pub fn symbol(self) -> (r: &'static str)
        ensures
            r@ == match self {
                ChangeType::FieldAdded => "+"@,
                ChangeType::FieldRemoved => "-"@,
                ChangeType::TypeChanged => "~"@,
            },
    {
        proof {
            reveal_strlit("+");
            reveal_strlit("-");
            reveal_strlit("~");
        }
        match self {
            ChangeType::FieldAdded => "+",
            ChangeType::FieldRemoved => "-",
            ChangeType::TypeChanged => "~",
        }
    }
}

/// Field paths with their types, each path once.
#[derive(Debug)]
pub struct Schema {
    pub fields: Vec<(String, FieldType)>,
}

impl Schema {
    pub open spec fn wf(&self) -> bool {
        unique_keys(self.fields@)
    }
}

impl View for Schema {
    type V = Map<Seq<char>, FieldType>;

    open spec fn view(&self) -> Map<Seq<char>, FieldType> {
        keyed(self.fields@)
    }
}

/// The type tag of a JSON value.
pub open spec fn type_of(j: Json) -> FieldType {
    match j {
        Json::Null => FieldType::Null,
        Json::Bool(_) => FieldType::Boolean,
        Json::Number(_) => FieldType::Number,
        Json::Str(_) => FieldType::String,
        Json::Array(_) => FieldType::Array,
        Json::Object(_) => FieldType::Object,
    }
}

/// `m` with `prefix -> t`, unless the prefix is empty (the document's root).
pub open spec fn with_leaf(
    m: Map<Seq<char>, FieldType>,
    prefix: Seq<char>,
    t: FieldType,
) -> Map<Seq<char>, FieldType> {
    if prefix.len() > 0 {
        m.insert(prefix, t)
    } else {
        m
    }
}

/// Path of member `key` under `prefix`: joined with a dot.
pub open spec fn member_path(prefix: Seq<char>, key: Seq<char>) -> Seq<char> {
    if prefix.len() == 0 {
        key
    } else {
        prefix + seq!['.'] + key
    }
}

/// Path of an array's first element under `prefix`.
pub open spec fn first_elem_path(prefix: Seq<char>) -> Seq<char> {
    prefix + seq!['[', '0', ']']
}

/// `m` with the fields of `j` found under `prefix` added in member order:
/// every node but the root gets its type; an array contributes only its first
/// element, an object each member.
pub open spec fn flat_into(m: Map<Seq<char>, FieldType>, j: Json, prefix: Seq<char>) -> Map<
    Seq<char>,
    FieldType,
>
    decreases j,
{
    let m1 = with_leaf(m, prefix, type_of(j));
    match j {
        Json::Array(items) => if items@.len() > 0 {
            flat_into(m1, items@[0], first_elem_path(prefix))
        } else {
            m1
        },
        Json::Object(members) => flat_members(m1, members@, prefix),
        _ => m1,
    }
}

pub open spec fn flat_members(
    m: Map<Seq<char>, FieldType>,
    members: Seq<(String, Json)>,
    prefix: Seq<char>,
) -> Map<Seq<char>, FieldType>
    decreases members,
{
    if members.len() == 0 {
        m
    } else {
        flat_into(
            flat_members(m, members.drop_last(), prefix),
            members.last().1,
            member_path(prefix, members.last().0@),
        )
    }
}

/// The schema of a JSON document.
pub open spec fn schema_of(j: Json) -> Map<Seq<char>, FieldType> {
    flat_into(Map::empty(), j, Seq::empty())
}

fn leaf(fields: &mut Vec<(String, FieldType)>, prefix: &String, t: FieldType)
    requires
        unique_keys(old(fields)@),
    ensures
        unique_keys(final(fields)@),
        keyed(final(fields)@) == with_leaf(keyed(old(fields)@), prefix@, t),
{
    if prefix.as_str().unicode_len() > 0 {
        set_entry(fields, prefix.clone(), t);
    }
}

fn type_tag(j: &Json) -> (r: FieldType)
    ensures
        r == type_of(*j),
{
    match j {
        Json::Null => FieldType::Null,
        Json::Bool(_) => FieldType::Boolean,
        Json::Number(_) => FieldType::Number,
        Json::Str(_) => FieldType::String,
        Json::Array(_) => FieldType::Array,
        Json::Object(_) => FieldType::Object,
    }
}

/// The path of member `key` under `prefix`.
pub fn join_member(prefix: &String, key: &String) -> (r: String)
    ensures
        r@ == member_path(prefix@, key@),
{
    if prefix.as_str().unicode_len() == 0 {
        key.clone()
    } else {
        proof {
            reveal_strlit(".");
        }
        prefix.clone().concat(".").concat(key.as_str())
    }
}

/// Adds the fields of `value` under `prefix` to `fields`, in member order.
fn extract_fields(value: &Json, prefix: &String, fields: &mut Vec<(String, FieldType)>)
    requires
        unique_keys(old(fields)@),
    ensures
        unique_keys(final(fields)@),
        keyed(final(fields)@) == flat_into(keyed(old(fields)@), *value, prefix@),
    decreases value,
{
    leaf(fields, prefix, type_tag(value));
    match value {
        Json::Array(items) => {
            if items.len() > 0 {
                proof {
                    reveal_strlit("[0]");
                    assert("[0]"@ =~= seq!['[', '0', ']']);
                }
                let p = prefix.clone().concat("[0]");
                extract_fields(&items[0], &p, fields);
            }
        },
        Json::Object(members) => {
            let ghost m1 = keyed(fields@);
            let mut i: usize = 0;
            proof {
                assert(members@.take(0) =~= Seq::<(String, Json)>::empty());
            }
            while i < members.len()
                invariant
                    i <= members.len(),
                    *value == Json::Object(*members),
                    unique_keys(fields@),
                    keyed(fields@) == flat_members(m1, members@.take(i as int), prefix@),
                decreases members.len() - i,
            {
                let p = join_member(prefix, &members[i].0);
                proof {
                    let ms = *members;
                    assert(decreases_to!(*value => (*value)->Object_0));
                    assert((*value)->Object_0 == ms);
                    assert(decreases_to!(ms => ms@));
                    assert(decreases_to!(ms@ => ms@[i as int]));
                    assert(decreases_to!(ms@[i as int] => ms@[i as int].1));
                    assert(decreases_to!(*value => ms@[i as int].1));
                }
                extract_fields(&members[i].1, &p, fields);
                proof {
                    assert(members@.take(i + 1).drop_last() =~= members@.take(i as int));
                }
                i = i + 1;
            }
            proof {
                assert(members@.take(i as int) =~= members@);
            }
        },
        _ => {},
    }
}

impl Schema {
    /// The flattened schema of a JSON document.
    pub fn from_json(value: &Json) -> (r: Schema)
        ensures
            r.wf(),
            r@ == schema_of(*value),
    {
        let mut fields: Vec<(String, FieldType)> = Vec::new();
        let prefix = String::new();
        proof {
            assert(keyed(fields@) =~= Map::<Seq<char>, FieldType>::empty());
        }
        extract_fields(value, &prefix, &mut fields);
        Schema { fields }
    }

    /// Number of field paths.
    pub fn field_count(&self) -> (r: usize)
        requires
            self.wf(),
        ensures
            r == self@.len(),
    {
        proof {
            lemma_keyed_len(self.fields@);
        }
        self.fields.len()
    }

    /// The type recorded for `path`.
    pub fn get(&self, path: &str) -> (r: Option<FieldType>)
        requires
            self.wf(),
        ensures
            r == (if self@.contains_key(path@) {
                Some(self@[path@])
            } else {
                None::<FieldType>
            }),
    {
        match find_key(&self.fields, path) {
            Some(i) => {
                proof {
                    lemma_keyed_has(self.fields@, i as int);
                }
                Some(self.fields[i].1)
            },
            None => None,
        }
    }
}

/// A schema difference: kind, field path, old type, new type.
pub type Delta = (ChangeType, Seq<char>, Option<FieldType>, Option<FieldType>);

/// Fields of `new_fields` (in order) whose path `old` lacks.
pub open spec fn added_spec(new_fields: Seq<(String, FieldType)>, old: Map<Seq<char>, FieldType>) -> Seq<
    Delta,
>
    decreases new_fields.len(),
{
    if new_fields.len() == 0 {
        Seq::empty()
    } else {
        let rest = added_spec(new_fields.drop_last(), old);
        let (k, t) = new_fields.last();
        if old.contains_key(k@) {
            rest
        } else {
            rest.push((ChangeType::FieldAdded, k@, None, Some(t)))
        }
    }
}

/// Fields of `old_fields` (in order) whose path `new` lacks.
pub open spec fn removed_spec(old_fields: Seq<(String, FieldType)>, new: Map<Seq<char>, FieldType>) -> Seq<
    Delta,
>
    decreases old_fields.len(),
{
    if old_fields.len() == 0 {
        Seq::empty()
    } else {
        let rest = removed_spec(old_fields.drop_last(), new);
        let (k, t) = old_fields.last();
        if new.contains_key(k@) {
            rest
        } else {
            rest.push((ChangeType::FieldRemoved, k@, Some(t), None))
        }
    }
}

/// Fields of `old_fields` (in order) that `new` holds with another type.
pub open spec fn changed_spec(old_fields: Seq<(String, FieldType)>, new: Map<Seq<char>, FieldType>) -> Seq<
    Delta,
>
    decreases old_fields.len(),
{
    if old_fields.len() == 0 {
        Seq::empty()
    } else {
        let rest = changed_spec(old_fields.drop_last(), new);
        let (k, t) = old_fields.last();
        if new.contains_key(k@) && new[k@] != t {
            rest.push((ChangeType::TypeChanged, k@, Some(t), Some(new[k@])))
        } else {
            rest
        }
    }
}

/// All differences from `old` to `new`: additions, then removals, then type
/// changes.
pub open spec fn diff_spec(old: Schema, new: Schema) -> Seq<Delta> {
    added_spec(new.fields@, old@) + removed_spec(old.fields@, new@) + changed_spec(
        old.fields@,
        new@,
    )
}

/// A recorded schema difference.
#[derive(Debug)]
pub struct SchemaChange {
    pub topic: String,
    pub change_type: ChangeType,
    pub field_path: String,
    pub old_type: Option<FieldType>,
    pub new_type: Option<FieldType>,
    /// Unix milliseconds of the message that showed it.
    pub timestamp: i64,
}

impl SchemaChange {
    pub open spec fn delta(&self) -> Delta {
        (self.change_type, self.field_path@, self.old_type, self.new_type)
    }

    pub open spec fn same(&self, o: SchemaChange) -> bool {
        &&& self.topic@ == o.topic@
        &&& self.delta() == o.delta()
        &&& self.timestamp == o.timestamp
    }

    /// A copy of this change.
    pub fn duplicate(&self) -> (r: SchemaChange)
        ensures
            r.same(*self),
    {
        SchemaChange {
            topic: self.topic.clone(),
            change_type: self.change_type,
            field_path: self.field_path.clone(),
            old_type: self.old_type,
            new_type: self.new_type,
            timestamp: self.timestamp,
        }
    }
}

/// Whether `out` holds the differences `d`, each stamped with `topic` and `now`.
pub open spec fn stamped(out: Seq<SchemaChange>, d: Seq<Delta>, topic: Seq<char>, now: i64) -> bool {
    &&& out.len() == d.len()
    &&& forall|i: int|
        0 <= i < out.len() ==> out[i].delta() == d[i] && out[i].topic@ == topic && out[i].timestamp
            == now
}

fn new_change(
    topic: &str,
    kind: ChangeType,
    path: &String,
    old_type: Option<FieldType>,
    new_type: Option<FieldType>,
    now: i64,
) -> (r: SchemaChange)
    ensures
        r.topic@ == topic@,
        r.delta() == (kind, path@, old_type, new_type),
        r.timestamp == now,
{
    SchemaChange {
        topic: String::from_str(topic),
        change_type: kind,
        field_path: path.clone(),
        old_type,
        new_type,
        timestamp: now,
    }
}

/// The differences from `old` to `new`, stamped with `topic` and `now`.
fn compare_schemas(topic: &str, old: &Schema, new: &Schema, now: i64) -> (r: Vec<SchemaChange>)
    requires
        old.wf(),
        new.wf(),
    ensures
        stamped(r@, diff_spec(*old, *new), topic@, now),
{
    let mut out: Vec<SchemaChange> = Vec::new();
    let mut i: usize = 0;
    while i < new.fields.len()
        invariant
            i <= new.fields.len(),
            old.wf(),
            new.wf(),
            stamped(out@, added_spec(new.fields@.take(i as int), old@), topic@, now),
        decreases new.fields.len() - i,
    {
        proof {
            assert(new.fields@.take(i + 1).drop_last() =~= new.fields@.take(i as int));
        }
        let (k, t) = &new.fields[i];
        if old.get(k.as_str()).is_none() {
            out.push(new_change(topic, ChangeType::FieldAdded, k, None, Some(*t), now));
        }
        i = i + 1;
    }
    proof {
        assert(new.fields@.take(i as int) =~= new.fields@);
    }
    let ghost a = out@;
    let mut removed: Vec<SchemaChange> = Vec::new();
    let mut changed: Vec<SchemaChange> = Vec::new();
    let mut j: usize = 0;
    while j < old.fields.len()
        invariant
            j <= old.fields.len(),
            old.wf(),
            new.wf(),
            stamped(removed@, removed_spec(old.fields@.take(j as int), new@), topic@, now),
            stamped(changed@, changed_spec(old.fields@.take(j as int), new@), topic@, now),
        decreases old.fields.len() - j,
    {
        proof {
            assert(old.fields@.take(j + 1).drop_last() =~= old.fields@.take(j as int));
        }
        let (k, t) = &old.fields[j];
        match new.get(k.as_str()) {
            None => {
                removed.push(new_change(topic, ChangeType::FieldRemoved, k, Some(*t), None, now));
            },
            Some(nt) => {
                if nt != *t {
                    changed.push(
                        new_change(topic, ChangeType::TypeChanged, k, Some(*t), Some(nt), now),
                    );
                }
            },
        }
        j = j + 1;
    }
    proof {
        assert(old.fields@.take(j as int) =~= old.fields@);
    }
    let ghost r0 = removed@;
    let ghost c0 = changed@;
    out.append(&mut removed);
    out.append(&mut changed);
    proof {
        assert(out@ =~= a + r0 + c0);
        let d = diff_spec(*old, *new);
        let d1 = added_spec(new.fields@, old@);
        let d2 = removed_spec(old.fields@, new@);
        let d3 = changed_spec(old.fields@, new@);
        assert(d == d1 + d2 + d3);
        assert forall|x: int| 0 <= x < out@.len() implies out@[x].delta() == d[x] && out@[
            x
        ].topic@ == topic@ && out@[x].timestamp == now by {
            if x < a.len() {
                assert(out@[x] == a[x]);
                assert(d[x] == d1[x]);
            } else if x < a.len() + r0.len() {
                assert(out@[x] == r0[x - a.len()]);
                assert(d[x] == d2[x - a.len()]);
            } else {
                assert(out@[x] == c0[x - a.len() - r0.len()]);
                assert(d[x] == d3[x - a.len() - r0.len()]);
            }
        }
    }
    out
}

proof fn lemma_added_none(s: Seq<(String, FieldType)>, m: Map<Seq<char>, FieldType>)
    requires
        forall|i: int| 0 <= i < s.len() ==> m.contains_key(#[trigger] s[i].0@),
    ensures
        added_spec(s, m).len() == 0,
    decreases s.len(),
{
    if s.len() > 0 {
        assert(m.contains_key(s[s.len() - 1].0@));
        lemma_added_none(s.drop_last(), m);
    }
}

proof fn lemma_removed_none(s: Seq<(String, FieldType)>, m: Map<Seq<char>, FieldType>)
    requires
        forall|i: int| 0 <= i < s.len() ==> m.contains_key(#[trigger] s[i].0@),
    ensures
        removed_spec(s, m).len() == 0,
    decreases s.len(),
{
    if s.len() > 0 {
        assert(m.contains_key(s[s.len() - 1].0@));
        lemma_removed_none(s.drop_last(), m);
    }
}

proof fn lemma_changed_none(s: Seq<(String, FieldType)>, m: Map<Seq<char>, FieldType>)
    requires
        forall|i: int|
            0 <= i < s.len() && m.contains_key(#[trigger] s[i].0@) ==> m[s[i].0@] == s[i].1,
    ensures
        changed_spec(s, m).len() == 0,
    decreases s.len(),
{
    if s.len() > 0 {
        let l = s.len() - 1;
        assert(m.contains_key(s[l].0@) ==> m[s[l].0@] == s[l].1);
        lemma_changed_none(s.drop_last(), m);
    }
}

proof fn lemma_added_one(
    s: Seq<(String, FieldType)>,
    m: Map<Seq<char>, FieldType>,
    k: Seq<char>,
    t: FieldType,
)
    requires
        unique_keys(s),
        keyed(s).contains_key(k),
        keyed(s)[k] == t,
        !m.contains_key(k),
        forall|i: int| 0 <= i < s.len() && #[trigger] s[i].0@ != k ==> m.contains_key(s[i].0@),
    ensures
        added_spec(s, m) == seq![(ChangeType::FieldAdded, k, None::<FieldType>, Some(t))],
    decreases s.len(),
{
    let p = s.drop_last();
    let l = s.len() - 1;
    lemma_keyed_keys(s, k);
    if s[l].0@ == k {
        assert forall|i: int| 0 <= i < p.len() implies m.contains_key(#[trigger] p[i].0@) by {
            assert(s[i].0@ != s[l].0@);
            assert(s[i] == p[i]);
        }
        lemma_added_none(p, m);
        lemma_keyed_has(s, l);
        assert(added_spec(p, m) =~= Seq::<Delta>::empty());
    } else {
        assert(m.contains_key(s[l].0@));
        assert(keyed(s) == keyed(p).insert(s[l].0@, s[l].1));
        assert(unique_keys(p));
        assert forall|i: int| 0 <= i < p.len() && #[trigger] p[i].0@ != k implies m.contains_key(
            p[i].0@,
        ) by {
            assert(s[i] == p[i]);
        }
        lemma_added_one(p, m, k, t);
    }
}

proof fn lemma_changed_one(
    s: Seq<(String, FieldType)>,
    m: Map<Seq<char>, FieldType>,
    k: Seq<char>,
    t2: FieldType,
)
    requires
        unique_keys(s),
        keyed(s).contains_key(k),
        keyed(s)[k] != t2,
        m.contains_key(k),
        m[k] == t2,
        forall|i: int|
            0 <= i < s.len() && #[trigger] s[i].0@ != k && m.contains_key(s[i].0@) ==> m[s[i].0@]
                == s[i].1,
    ensures
        changed_spec(s, m) == seq![
            (ChangeType::TypeChanged, k, Some(keyed(s)[k]), Some(t2)),
        ],
    decreases s.len(),
{
    let p = s.drop_last();
    let l = s.len() - 1;
    lemma_keyed_keys(s, k);
    if s[l].0@ == k {
        assert forall|i: int| 0 <= i < p.len() && m.contains_key(#[trigger] p[i].0@) implies m[p[
            i
        ].0@] == p[i].1 by {
            assert(s[i].0@ != s[l].0@);
            assert(s[i] == p[i]);
        }
        lemma_changed_none(p, m);
        lemma_keyed_has(s, l);
        assert(changed_spec(p, m) =~= Seq::<Delta>::empty());
    } else {
        assert(keyed(s) == keyed(p).insert(s[l].0@, s[l].1));
        assert(unique_keys(p));
        assert forall|i: int|
            0 <= i < p.len() && #[trigger] p[i].0@ != k && m.contains_key(p[i].0@) implies m[p[
            i
        ].0@] == p[i].1 by {
            assert(s[i] == p[i]);
        }
        lemma_changed_one(p, m, k, t2);
    }
}

proof fn lemma_keys_in(s: Seq<(String, FieldType)>, i: int)
    requires
        0 <= i < s.len(),
    ensures
        keyed(s).contains_key(s[i].0@),
{
    lemma_keyed_keys(s, s[i].0@);
}

/// Two schemas with the same fields and types show no difference.
pub proof fn lemma_same_schema_no_changes(old: Schema, new: Schema)
    requires
        old.wf(),
        new.wf(),
        old@ == new@,
    ensures
        diff_spec(old, new).len() == 0,
{
    assert forall|i: int| 0 <= i < new.fields@.len() implies old@.contains_key(
        #[trigger] new.fields@[i].0@,
    ) by {
        lemma_keys_in(new.fields@, i);
    }
    assert forall|i: int| 0 <= i < old.fields@.len() implies new@.contains_key(
        #[trigger] old.fields@[i].0@,
    ) by {
        lemma_keys_in(old.fields@, i);
    }
    assert forall|i: int|
        0 <= i < old.fields@.len() && new@.contains_key(#[trigger] old.fields@[i].0@) implies new@[old.fields@[i].0@]
        == old.fields@[i].1 by {
        lemma_keyed_has(old.fields@, i);
    }
    lemma_added_none(new.fields@, old@);
    lemma_removed_none(old.fields@, new@);
    lemma_changed_none(old.fields@, new@);
}

/// A schema that gains exactly one field `k` shows exactly one difference:
/// `FieldAdded` for `k`.
pub proof fn lemma_one_field_added(old: Schema, new: Schema, k: Seq<char>, t: FieldType)
    requires
        old.wf(),
        new.wf(),
        !old@.contains_key(k),
        new@ == old@.insert(k, t),
    ensures
        diff_spec(old, new) == seq![(ChangeType::FieldAdded, k, None::<FieldType>, Some(t))],
{
    assert forall|i: int| 0 <= i < new.fields@.len() && #[trigger] new.fields@[i].0@ != k implies old@.contains_key(
        new.fields@[i].0@,
    ) by {
        lemma_keys_in(new.fields@, i);
    }
    lemma_added_one(new.fields@, old@, k, t);
    assert forall|i: int| 0 <= i < old.fields@.len() implies new@.contains_key(
        #[trigger] old.fields@[i].0@,
    ) by {
        lemma_keys_in(old.fields@, i);
    }
    assert forall|i: int|
        0 <= i < old.fields@.len() && new@.contains_key(#[trigger] old.fields@[i].0@) implies new@[old.fields@[i].0@]
        == old.fields@[i].1 by {
        lemma_keyed_has(old.fields@, i);
        lemma_keys_in(old.fields@, i);
    }
    lemma_removed_none(old.fields@, new@);
    lemma_changed_none(old.fields@, new@);
    assert(diff_spec(old, new) =~= seq![(ChangeType::FieldAdded, k, None::<FieldType>, Some(t))]);
}

/// A schema in which exactly one field `k` changes its type shows exactly one
/// difference: `TypeChanged` for `k`, from the old type to the new.
pub proof fn lemma_one_type_changed(old: Schema, new: Schema, k: Seq<char>, t: FieldType)
    requires
        old.wf(),
        new.wf(),
        old@.contains_key(k),
        old@[k] != t,
        new@ == old@.insert(k, t),
    ensures
        diff_spec(old, new) == seq![
            (ChangeType::TypeChanged, k, Some(old@[k]), Some(t)),
        ],
{
    assert forall|i: int| 0 <= i < new.fields@.len() implies old@.contains_key(
        #[trigger] new.fields@[i].0@,
    ) by {
        lemma_keys_in(new.fields@, i);
    }
    lemma_added_none(new.fields@, old@);
    assert forall|i: int| 0 <= i < old.fields@.len() implies new@.contains_key(
        #[trigger] old.fields@[i].0@,
    ) by {
        lemma_keys_in(old.fields@, i);
    }
    lemma_removed_none(old.fields@, new@);
    assert forall|i: int|
        0 <= i < old.fields@.len() && #[trigger] old.fields@[i].0@ != k && new@.contains_key(
            old.fields@[i].0@,
        ) implies new@[old.fields@[i].0@] == old.fields@[i].1 by {
        lemma_keyed_has(old.fields@, i);
    }
    lemma_changed_one(old.fields@, new@, k, t);
    assert(diff_spec(old, new) =~= seq![
        (ChangeType::TypeChanged, k, Some(old@[k]), Some(t)),
    ]);
}

/// The first document seen on a topic shows no difference.
pub proof fn lemma_first_document_baseline(
    pre: SchemaTracker,
    post: SchemaTracker,
    topic: Seq<char>,
    j: Json,
    now: i64,
    r: Seq<SchemaChange>,
)
    requires
        processed(pre, post, topic, j, now, r),
        !keyed(pre.schemas@).contains_key(topic),
    ensures
        r.len() == 0,
{
}

/// A recorded change as plain values: topic, difference, time.
pub type ChangeView = (Seq<char>, Delta, i64);

pub open spec fn change_view(c: SchemaChange) -> ChangeView {
    (c.topic@, c.delta(), c.timestamp)
}

pub open spec fn change_views(s: Seq<SchemaChange>) -> Seq<ChangeView> {
    s.map_values(|c: SchemaChange| change_view(c))
}

/// `h` with each of `added` appended in turn, the oldest entry dropped first
/// whenever `max` entries are already held.
pub open spec fn capped_append(h: Seq<ChangeView>, added: Seq<ChangeView>, max: nat) -> Seq<
    ChangeView,
>
    decreases added.len(),
{
    if added.len() == 0 {
        h
    } else {
        let h1 = capped_append(h, added.drop_last(), max);
        if h1.len() >= max {
            h1.drop_first().push(added.last())
        } else {
            h1.push(added.last())
        }
    }
}

/// Size of the change history.
pub const MAX_CHANGES: usize = 50;

/// The latest schema of each topic and a bounded history of differences.
#[derive(Debug)]
pub struct SchemaTracker {
    pub schemas: Vec<(String, Schema)>,
    pub changes: Vec<SchemaChange>,
    pub max_changes: usize,
}

/// What handling document `j` on `topic` at time `now` does: the returned
/// changes are the differences from the topic's stored schema (none on a
/// topic's first document), they join the bounded history, and the stored
/// schema becomes the document's.
pub open spec fn processed(
    pre: SchemaTracker,
    post: SchemaTracker,
    topic: Seq<char>,
    j: Json,
    now: i64,
    r: Seq<SchemaChange>,
) -> bool {
    let stored = keyed(post.schemas@)[topic];
    &&& post.wf()
    &&& post.max_changes == pre.max_changes
    &&& stored@ == schema_of(j)
    &&& keyed(post.schemas@) == keyed(pre.schemas@).insert(topic, stored)
    &&& if keyed(pre.schemas@).contains_key(topic) {
        stamped(r, diff_spec(keyed(pre.schemas@)[topic], stored), topic, now)
    } else {
        r.len() == 0
    }
    &&& change_views(post.changes@) == capped_append(
        change_views(pre.changes@),
        change_views(r),
        pre.max_changes as nat,
    )
}

impl SchemaTracker {
    pub open spec fn wf(&self) -> bool {
        &&& unique_keys(self.schemas@)
        &&& forall|i: int| 0 <= i < self.schemas@.len() ==> (#[trigger] self.schemas@[i]).1.wf()
        &&& 0 < self.max_changes
        &&& self.changes@.len() <= self.max_changes
    }

    pub fn new() -> (r: Self)
        ensures
            r.wf(),
            r.schemas@.len() == 0,
            r.changes@.len() == 0,
            r.max_changes == MAX_CHANGES,
    {
        SchemaTracker { schemas: Vec::new(), changes: Vec::new(), max_changes: MAX_CHANGES }
    }

    /// Handles one JSON document on `topic` observed at `now`, and returns the
    /// differences it shows against the topic's previous document.
    pub fn process_json(&mut self, topic: &str, json: &Json, now: i64) -> (r: Vec<SchemaChange>)
        requires
            old(self).wf(),
        ensures
            processed(*old(self), *final(self), topic@, *json, now, r@),
    {
        let new_schema = Schema::from_json(json);
        let mut detected: Vec<SchemaChange> = Vec::new();
        match find_key(&self.schemas, topic) {
            Some(i) => {
                proof {
                    lemma_keyed_has(self.schemas@, i as int);
                    assert(self.schemas@[i as int].1.wf());
                }
                detected = compare_schemas(topic, &self.schemas[i].1, &new_schema, now);
            },
            None => {},
        }
        let ghost h0 = change_views(self.changes@);
        let mut k: usize = 0;
        proof {
            assert(change_views(detected@.take(0)) =~= Seq::<ChangeView>::empty());
            assert(change_views(self.changes@) == capped_append(h0, change_views(detected@.take(0)), self.max_changes as nat));
        }
        while k < detected.len()
            invariant
                k <= detected.len(),
                0 < self.max_changes,
                self.changes@.len() <= self.max_changes,
                change_views(self.changes@) == capped_append(
                    h0,
                    change_views(detected@.take(k as int)),
                    self.max_changes as nat,
                ),
                self.schemas == old(self).schemas,
                self.max_changes == old(self).max_changes,
            decreases detected.len() - k,
        {
            let ghost before = change_views(self.changes@);
            proof {
                assert(change_views(detected@.take(k + 1)).drop_last() =~= change_views(
                    detected@.take(k as int),
                ));
                assert(change_views(detected@.take(k + 1)).last() == change_view(detected@[k as int]));
            }
            if self.changes.len() >= self.max_changes {
                self.changes.remove(0);
                assert(change_views(self.changes@) =~= before.drop_first());
            }
            let ghost mid = change_views(self.changes@);
            let c = detected[k].duplicate();
            self.changes.push(c);
            assert(change_views(self.changes@) =~= mid.push(change_view(detected@[k as int])));
            k = k + 1;
        }
        proof {
            assert(detected@.take(k as int) =~= detected@);
        }
        let ghost pre_schemas = self.schemas@;
        let ghost ns = new_schema;
        set_entry(&mut self.schemas, String::from_str(topic), new_schema);
        proof {
            let post = self.schemas@;
            assert(keyed(post) == keyed(pre_schemas).insert(topic@, ns));
            assert forall|i: int| 0 <= i < post.len() implies (#[trigger] post[i]).1.wf() by {
                lemma_keyed_has(post, i);
                if post[i].0@ != topic@ {
                    lemma_keyed_keys(pre_schemas, post[i].0@);
                    let x = choose|x: int| 0 <= x < pre_schemas.len() && pre_schemas[x].0@ == post[i].0@;
                    lemma_keyed_has(pre_schemas, x);
                    assert(pre_schemas[x].1.wf());
                }
            }
        }
        detected
    }

    /// Handles one payload on `topic`. A payload that is not JSON changes
    /// nothing and shows no difference.
    pub fn process_message(&mut self, topic: &str, payload: &[u8]) -> (r: Vec<SchemaChange>)
        requires
            old(self).wf(),
        ensures
            final(self).wf(),
            match json_of(payload@) {
                Some(j) => exists|now: i64|
                    #[trigger] processed(*old(self), *final(self), topic@, j, now, r@),
                None => r@.len() == 0 && *final(self) == *old(self),
            },
    {
        match parse_json(payload) {
            Some(j) => {
                let now = now_millis();
                self.process_json(topic, &j, now)
            },
            None => Vec::new(),
        }
    }

    /// The recorded differences, oldest first.
    pub fn recent_changes(&self) -> (r: &[SchemaChange])
        ensures
            r@ == self.changes@,
    {
        self.changes.as_slice()
    }

    pub open spec fn recent_at(&self, now: i64, since_secs: u64) -> bool {
        exists|i: int|
            0 <= i < self.changes@.len() && now - self.changes@[i].timestamp < since_secs * 1000
    }

    /// Whether some recorded difference is younger than `since_secs` seconds at `now`.
    pub fn has_recent_changes_at(&self, now: i64, since_secs: u64) -> (r: bool)
        ensures
            r == self.recent_at(now, since_secs),
    {
        let mut i: usize = 0;
        let limit: i128 = since_secs as i128 * 1000;
        while i < self.changes.len()
            invariant
                i <= self.changes@.len(),
                limit == since_secs * 1000,
                forall|k: int| 0 <= k < i ==> now - self.changes@[k].timestamp >= since_secs * 1000,
            decreases self.changes.len() - i,
        {
            if (now as i128) - (self.changes[i].timestamp as i128) < limit {
                return true;
            }
            i = i + 1;
        }
        false
    }

    /// Whether some recorded difference is younger than `since_secs` seconds.
    pub fn has_recent_changes(&self, since_secs: u64) -> (r: bool)
        ensures
            exists|now: i64| r == #[trigger] self.recent_at(now, since_secs),
    {
        let now = now_millis();
        self.has_recent_changes_at(now, since_secs)
    }

    /// The stored schema of `topic`.
    pub fn get_schema(&self, topic: &str) -> (r: Option<&Schema>)
        requires
            self.wf(),
        ensures
            match r {
                Some(s) => keyed(self.schemas@).contains_key(topic@) && *s == keyed(
                    self.schemas@,
                )[topic@],
                None => !keyed(self.schemas@).contains_key(topic@),
            },
    {
        match find_key(&self.schemas, topic) {
            Some(i) => {
                proof {
                    lemma_keyed_has(self.schemas@, i as int);
                }
                Some(&self.schemas[i].1)
            },
            None => None,
        }
    }

    /// Number of topics with a stored schema.
    pub fn topic_count(&self) -> (r: usize)
        requires
            self.wf(),
        ensures
            r == keyed(self.schemas@).len(),
    {
        proof {
            lemma_keyed_len(self.schemas@);
        }
        self.schemas.len()
    }

    /// Forgets the recorded differences.
    pub fn clear_changes(&mut self)
        requires
            old(self).wf(),
        ensures
            final(self).wf(),
            final(self).changes@.len() == 0,
            final(self).schemas == old(self).schemas,
            final(self).max_changes == old(self).max_changes,
    {
        self.changes.clear();
    }
}

} // verus!
