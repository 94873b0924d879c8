//! YAML values of `serde_yaml` and what the library reads of them.
use vstd::prelude::*;

verus! {

/// What a YAML value holds.
pub enum YamlView {
    Null,
    Bool(bool),
    /// The number as it is printed.
    Number(Seq<char>),
    Str(Seq<char>),
    Sequence(Seq<YamlView>),
    Mapping(Seq<(YamlView, YamlView)>),
    /// A tag and the value that it marks.
    Tagged(Seq<char>, Box<YamlView>),
}

/// A value of `serde_yaml`.
#[verifier::external_type_specification]
#[verifier::external_body]
pub struct ExYamlValue(serde_yaml::Value);

/// A mapping of `serde_yaml`, which keeps its entries in order.
#[verifier::external_type_specification]
#[verifier::external_body]
pub struct ExYamlMapping(serde_yaml::Mapping);

/// What a value of `serde_yaml` holds.
pub uninterp spec fn yaml_view(v: serde_yaml::Value) -> YamlView;

/// The entries of a mapping of `serde_yaml`, in order.
pub uninterp spec fn mapping_view(m: serde_yaml::Mapping) -> Seq<(YamlView, YamlView)>;

/// What `serde_yaml::from_str` reads from a text as a value, or its message.
pub uninterp spec fn yaml_value_of(text: Seq<char>) -> Result<YamlView, Seq<char>>;

/// What `serde_yaml::from_str` reads from a text as a mapping, or its message.
pub uninterp spec fn yaml_mapping_of(text: Seq<char>) -> Result<
    Seq<(YamlView, YamlView)>,
    Seq<char>,
>;

/// The text that `serde_yaml::to_string` writes for a value, or its message.
pub uninterp spec fn yaml_text_of_value(v: YamlView) -> Result<Seq<char>, Seq<char>>;

/// The text that `serde_yaml::to_string` writes for a mapping, or its message.
pub uninterp spec fn yaml_text_of_mapping(entries: Seq<(YamlView, YamlView)>) -> Result<
    Seq<char>,
    Seq<char>,
>;

/// What values of `serde_yaml` hold.
pub open spec fn yaml_views(v: Seq<serde_yaml::Value>) -> Seq<YamlView> {
    v.map_values(|x: serde_yaml::Value| yaml_view(x))
}

/// A value of `serde_yaml` opened by its variant.
pub enum YamlKind {
    Null,
    Bool(bool),
    /// The number as it is printed.
    Number(String),
    Str(String),
    Sequence(Vec<serde_yaml::Value>),
    /// A mapping.
    Mapping(serde_yaml::Mapping),
    /// A value with a tag.
    Tagged(serde_yaml::Value),
}

/// What an opened value holds.
pub open spec fn kind_view(kind: YamlKind) -> YamlView {
    match kind {
        YamlKind::Null => YamlView::Null,
        YamlKind::Bool(b) => YamlView::Bool(b),
        YamlKind::Number(n) => YamlView::Number(n@),
        YamlKind::Str(s) => YamlView::Str(s@),
        YamlKind::Sequence(items) => YamlView::Sequence(yaml_views(items@)),
        YamlKind::Mapping(m) => YamlView::Mapping(mapping_view(m)),
        YamlKind::Tagged(t) => yaml_view(t),
    }
}

/// Place of the first entry with this key; the number of entries if there is none.
pub open spec fn key_index(entries: Seq<(YamlView, YamlView)>, key: YamlView) -> nat
    decreases entries.len(),
{
    if entries.len() == 0 || entries[0].0 == key {
        0
    } else {
        1 + key_index(entries.drop_first(), key)
    }
}

/// The entries after `key` was given this value: in its place if it was there, else at the end.
pub open spec fn with_entry(
    entries: Seq<(YamlView, YamlView)>,
    key: YamlView,
    value: YamlView,
) -> Seq<(YamlView, YamlView)> {
    let i = key_index(entries, key) as int;
    if i < entries.len() {
        entries.update(i, (key, value))
    } else {
        entries.push((key, value))
    }
}

/// The entries after `key` was taken out; the last entry moves into its place.
pub open spec fn without_entry(entries: Seq<(YamlView, YamlView)>, key: YamlView) -> Seq<
    (YamlView, YamlView),
> {
    let i = key_index(entries, key) as int;
    if i < entries.len() {
        entries.update(i, entries.last()).drop_last()
    } else {
        entries
    }
}

/// The value at `key`.
pub open spec fn entry_of(entries: Seq<(YamlView, YamlView)>, key: YamlView) -> Option<YamlView> {
    let i = key_index(entries, key) as int;
    if i < entries.len() {
        Some(entries[i].1)
    } else {
        None
    }
}

/// `serde_yaml::from_str` into a value: what comes out depends on the text alone.
#[verifier::external_body]
pub(crate) fn parse_value(text: &str) -> (r: Result<serde_yaml::Value, String>)
    ensures
        match r {
            Ok(v) => yaml_value_of(text@) == Ok::<YamlView, Seq<char>>(yaml_view(v)),
            Err(e) => yaml_value_of(text@) == Err::<YamlView, Seq<char>>(e@),
        },
{
    match serde_yaml::from_str(text) {
        Ok(v) => Ok(v),
        Err(e) => Err(e.to_string()),
    }
}

/// `serde_yaml::from_str` into a mapping: what comes out depends on the text alone.
#[verifier::external_body]
pub(crate) fn parse_mapping(text: &str) -> (r: Result<serde_yaml::Mapping, String>)
    ensures
        match r {
            Ok(m) => yaml_mapping_of(text@) == Ok::<Seq<(YamlView, YamlView)>, Seq<char>>(
                mapping_view(m),
            ),
            Err(e) => yaml_mapping_of(text@) == Err::<Seq<(YamlView, YamlView)>, Seq<char>>(e@),
        },
{
    match serde_yaml::from_str(text) {
        Ok(m) => Ok(m),
        Err(e) => Err(e.to_string()),
    }
}

/// `serde_yaml::to_string` on a value: what comes out depends on what the value holds.
#[verifier::external_body]
pub(crate) fn value_text(v: &serde_yaml::Value) -> (r: Result<String, String>)
    ensures
        match r {
            Ok(t) => yaml_text_of_value(yaml_view(*v)) == Ok::<Seq<char>, Seq<char>>(t@),
            Err(e) => yaml_text_of_value(yaml_view(*v)) == Err::<Seq<char>, Seq<char>>(e@),
        },
{
    match serde_yaml::to_string(v) {
        Ok(t) => Ok(t),
        Err(e) => Err(e.to_string()),
    }
}

/// `serde_yaml::to_string` on a mapping: what comes out depends on its entries and their order.
#[verifier::external_body]
pub(crate) fn mapping_text(m: &serde_yaml::Mapping) -> (r: Result<String, String>)
    ensures
        match r {
            Ok(t) => yaml_text_of_mapping(mapping_view(*m)) == Ok::<Seq<char>, Seq<char>>(t@),
            Err(e) => yaml_text_of_mapping(mapping_view(*m)) == Err::<Seq<char>, Seq<char>>(e@),
        },
{
    match serde_yaml::to_string(m) {
        Ok(t) => Ok(t),
        Err(e) => Err(e.to_string()),
    }
}

/// `Value::String` of `serde_yaml`: the value that holds this string.
#[verifier::external_body]
pub(crate) fn yaml_string(s: String) -> (r: serde_yaml::Value)
    ensures
        yaml_view(r) == YamlView::Str(s@),
{
    serde_yaml::Value::String(s)
}

/// `Value::Sequence` of `serde_yaml`: the value that holds these values in this order.
#[verifier::external_body]
pub(crate) fn yaml_sequence(items: Vec<serde_yaml::Value>) -> (r: serde_yaml::Value)
    ensures
        yaml_view(r) == YamlView::Sequence(yaml_views(items@)),
{
    serde_yaml::Value::Sequence(items)
}

/// The variants of `serde_yaml::Value`: which one a value is, with what it holds.
#[verifier::external_body]
pub(crate) fn yaml_kind(v: serde_yaml::Value) -> (r: YamlKind)
    ensures
        yaml_view(v) == kind_view(r),
        r is Tagged ==> yaml_view(v) is Tagged,
{
    match v {
        serde_yaml::Value::Null => YamlKind::Null,
        serde_yaml::Value::Bool(b) => YamlKind::Bool(b),
        serde_yaml::Value::Number(n) => YamlKind::Number(n.to_string()),
        serde_yaml::Value::String(s) => YamlKind::Str(s),
        serde_yaml::Value::Sequence(items) => YamlKind::Sequence(items),
        serde_yaml::Value::Mapping(m) => YamlKind::Mapping(m),
        serde_yaml::Value::Tagged(t) => YamlKind::Tagged(serde_yaml::Value::Tagged(t)),
    }
}

/// `Value::Mapping` of `serde_yaml`: the value that holds these entries.
#[verifier::external_body]
pub(crate) fn yaml_mapping(m: serde_yaml::Mapping) -> (r: serde_yaml::Value)
    ensures
        yaml_view(r) == YamlView::Mapping(mapping_view(m)),
{
    serde_yaml::Value::Mapping(m)
}

/// `Mapping::new` of `serde_yaml`: a mapping without entries.
#[verifier::external_body]
pub(crate) fn mapping_new() -> (r: serde_yaml::Mapping)
    ensures
        mapping_view(r).len() == 0,
{
    serde_yaml::Mapping::new()
}

/// `Mapping::insert` of `serde_yaml` with a string as key: the value of the key is replaced in
/// its place if the key is there, else the entry is added at the end.
#[verifier::external_body]
pub(crate) fn mapping_insert(m: &mut serde_yaml::Mapping, key: &str, value: serde_yaml::Value)
    ensures
        mapping_view(*final(m)) == with_entry(
            mapping_view(*old(m)),
            YamlView::Str(key@),
            yaml_view(value),
        ),
{
    m.insert(serde_yaml::Value::String(key.to_string()), value);
}

/// `Mapping::remove` of `serde_yaml` with a string as key: the entry is taken out and the last
/// entry moves into its place.
#[verifier::external_body]
pub(crate) fn mapping_remove(m: &mut serde_yaml::Mapping, key: &str) -> (r: Option<
    serde_yaml::Value,
>)
    ensures
        mapping_view(*final(m)) == without_entry(mapping_view(*old(m)), YamlView::Str(key@)),
        match r {
            Some(v) => entry_of(mapping_view(*old(m)), YamlView::Str(key@)) == Some(yaml_view(v)),
            None => entry_of(mapping_view(*old(m)), YamlView::Str(key@)) is None,
        },
{
    m.remove(key)
}

/// The keys of entries that are strings, among the first `k`.
pub open spec fn string_keys(entries: Seq<(YamlView, YamlView)>, k: nat) -> Seq<Seq<char>>
    decreases k,
{
    if k == 0 {
        Seq::empty()
    } else {
        let before = string_keys(entries, (k - 1) as nat);
        match entries[k - 1].0 {
            YamlView::Str(s) => before.push(s),
            _ => before,
        }
    }
}

/// `Mapping::into_iter` of `serde_yaml`: the entries in their order.
#[verifier::external_body]
pub(crate) fn mapping_entries(m: serde_yaml::Mapping) -> (r: Vec<
    (serde_yaml::Value, serde_yaml::Value),
>)
    ensures
        r@.len() == mapping_view(m).len(),
        forall|i: int|
            0 <= i < r@.len() ==> mapping_view(m)[i] == (
                yaml_view((#[trigger] r@[i]).0),
                yaml_view(r@[i].1),
            ),
{
    m.into_iter().collect()
}

pub proof fn lemma_key_index(entries: Seq<(YamlView, YamlView)>, key: YamlView)
    ensures
        key_index(entries, key) <= entries.len(),
        key_index(entries, key) < entries.len() ==> entries[key_index(entries, key) as int].0 == key,
        forall|i: int| 0 <= i < key_index(entries, key) ==> (#[trigger] entries[i]).0 != key,
    decreases entries.len(),
{
    if entries.len() > 0 && entries[0].0 != key {
        let d = entries.drop_first();
        lemma_key_index(d, key);
        assert forall|i: int| 0 <= i < key_index(entries, key) implies (#[trigger] entries[i]).0
            != key by {
            if i > 0 {
                assert(d[i - 1] == entries[i]);
            }
        }
    }
}

pub proof fn lemma_key_index_is(entries: Seq<(YamlView, YamlView)>, key: YamlView, at: int)
    requires
        0 <= at <= entries.len(),
        at < entries.len() ==> entries[at].0 == key,
        forall|i: int| 0 <= i < at ==> (#[trigger] entries[i]).0 != key,
    ensures
        key_index(entries, key) == at,
{
    lemma_key_index(entries, key);
    let k = key_index(entries, key) as int;
    if k < at {
        assert(entries[k].0 != key);
    } else if at < k {
        assert(entries[at].0 != key);
    }
}

/// Whether no key occurs twice.
pub open spec fn keys_are_distinct(entries: Seq<(YamlView, YamlView)>) -> bool {
    forall|i: int, j: int|
        0 <= i < j < entries.len() ==> (#[trigger] entries[i]).0 != (#[trigger] entries[j]).0
}

/// An entry is read where its key is; setting a key gives it the value and leaves all other
/// entries as they were, in their order.
pub proof fn law_set_entry(
    entries: Seq<(YamlView, YamlView)>,
    key: YamlView,
    value: YamlView,
    other: YamlView,
    i: int,
)
    requires
        keys_are_distinct(entries),
    ensures
        0 <= i < entries.len() ==> entry_of(entries, entries[i].0) == Some(entries[i].1),
        (forall|j: int| 0 <= j < entries.len() ==> (#[trigger] entries[j]).0 != key) ==> entry_of(
            entries,
            key,
        ) is None && with_entry(entries, key, value) == entries.push((key, value)),
        entry_of(with_entry(entries, key, value), key) == Some(value),
        other != key ==> entry_of(with_entry(entries, key, value), other) == entry_of(
            entries,
            other,
        ),
        0 <= i < entries.len() && entries[i].0 != key ==> with_entry(entries, key, value)[i]
            == entries[i],
        keys_are_distinct(with_entry(entries, key, value)),
{
    let r = with_entry(entries, key, value);
    let k = key_index(entries, key) as int;
    lemma_key_index(entries, key);
    if 0 <= i < entries.len() {
        lemma_key_index_is(entries, entries[i].0, i);
    }
    assert(r[k] == (key, value));
    assert forall|j: int| 0 <= j < k implies (#[trigger] r[j]).0 != key by {
        assert(r[j] == entries[j]);
    }
    lemma_key_index_is(r, key, k);
    if other != key {
        let o = key_index(entries, other) as int;
        lemma_key_index(entries, other);
        if o < entries.len() {
            assert(r[o] == entries[o]);
            assert forall|j: int| 0 <= j < o implies (#[trigger] r[j]).0 != other by {
                if j != k {
                    assert(r[j] == entries[j]);
                }
            }
            lemma_key_index_is(r, other, o);
        } else {
            assert forall|j: int| 0 <= j < r.len() implies (#[trigger] r[j]).0 != other by {
                if j != k {
                    assert(r[j] == entries[j]);
                }
            }
            lemma_key_index_is(r, other, r.len() as int);
        }
    }
    assert forall|x: int, y: int| 0 <= x < y < r.len() implies (#[trigger] r[x]).0 != (
    #[trigger] r[y]).0 by {
        if x == k {
            if k < entries.len() {
                assert(entries[k].0 != entries[y].0);
            }
        } else if y == k {
            assert(entries[x].0 != key);
        } else {
            assert(entries[x].0 != entries[y].0);
        }
    }
}

/// Removing a key removes its entry and no other.
pub proof fn law_removed_entry(entries: Seq<(YamlView, YamlView)>, key: YamlView, other: YamlView)
    requires
        keys_are_distinct(entries),
    ensures
        entry_of(without_entry(entries, key), key) is None,
        other != key ==> entry_of(without_entry(entries, key), other) == entry_of(entries, other),
        entry_of(entries, key) is None ==> without_entry(entries, key) == entries,
        entry_of(entries, key) is Some ==> without_entry(entries, key).len() == entries.len() - 1,
{
    let r = without_entry(entries, key);
    let k = key_index(entries, key) as int;
    let n = entries.len() as int;
    lemma_key_index(entries, key);
    if k < n {
        assert forall|j: int| 0 <= j < r.len() implies (#[trigger] r[j]).0 != key by {
            if j == k {
                assert(entries[k].0 != entries[n - 1].0);
            } else if j < k {
                assert(entries[j].0 != entries[k].0);
            } else {
                assert(entries[k].0 != entries[j].0);
            }
        }
        lemma_key_index_is(r, key, r.len() as int);
        if other != key {
            let o = key_index(entries, other) as int;
            lemma_key_index(entries, other);
            let at = if o == n {
                n - 1
            } else if o == n - 1 {
                k
            } else {
                o
            };
            assert forall|j: int| 0 <= j < at implies (#[trigger] r[j]).0 != other by {
                if j != k {
                    assert(r[j] == entries[j]);
                    if o < n && j != o {
                        if j < o {
                            assert(entries[j].0 != entries[o].0);
                        } else {
                            assert(entries[o].0 != entries[j].0);
                        }
                    }
                } else {
                    assert(r[j] == entries[n - 1]);
                    if o < n - 1 {
                        assert(entries[o].0 != entries[n - 1].0);
                    }
                }
            }
            lemma_key_index_is(r, other, at);
        }
    }
}

/// The keys that are texts are given in the order of their entries, and no other keys are.
pub proof fn law_text_keys(entries: Seq<(YamlView, YamlView)>, e: (YamlView, YamlView))
    ensures
        string_keys(Seq::empty(), 0).len() == 0,
        string_keys(entries.push(e), entries.len() + 1) == if e.0 is Str {
            string_keys(entries, entries.len()).push(e.0->Str_0)
        } else {
            string_keys(entries, entries.len())
        },
{
    lemma_keys_of_prefix(entries, e, entries.len());
    assert(entries.push(e)[entries.len() as int] == e);
}

proof fn lemma_keys_of_prefix(entries: Seq<(YamlView, YamlView)>, e: (YamlView, YamlView), k: nat)
    requires
        k <= entries.len(),
    ensures
        string_keys(entries.push(e), k) == string_keys(entries, k),
    decreases k,
{
    if k > 0 {
        assert(entries.push(e)[k - 1] == entries[k - 1]);
        lemma_keys_of_prefix(entries, e, (k - 1) as nat);
    }
}

} // verus!
