//! Trace propagation through the annotations of an AMQP message.

use crate::propagation::{pairs, propagated_fields, span_of, text, texts, SpanLink};
use fe2o3_amqp_types::messaging::MessageAnnotations;
use vstd::prelude::*;

verus! {

#[verifier::external_type_specification]
#[verifier::external_body]
pub struct ExMessageAnnotations(MessageAnnotations);

/// A key of an annotation map: an interned symbol or a number.
pub ghost enum KeyModel {
    Symbol(Seq<char>),
    Ulong(u64),
}

/// A key as the map hands it out.
pub enum Key<'a> {
    Symbol(&'a str),
    Ulong(u64),
}

impl<'a> Key<'a> {
    pub open spec fn model(self) -> KeyModel {
        match self {
            Key::Symbol(s) => KeyModel::Symbol(s@),
            Key::Ulong(n) => KeyModel::Ulong(n),
        }
    }
}

/// What an annotation map holds: under each key the text of its value where
/// the value is a string, `None` where it is of another type.
pub uninterp spec fn annotation_values(a: MessageAnnotations) -> Map<KeyModel, Option<Seq<char>>>;

/// The keys of an annotation map in the order in which it walks them.
pub uninterp spec fn annotation_order(a: MessageAnnotations) -> Seq<KeyModel>;

/// The text found under a symbol: absent where the key is missing or the
/// value is no string.
pub open spec fn text_under(values: Map<KeyModel, Option<Seq<char>>>, key: Seq<char>) -> Option<
    Seq<char>,
> {
    if values.contains_key(KeyModel::Symbol(key)) {
        values[KeyModel::Symbol(key)]
    } else {
        None
    }
}

/// The symbols among a run of keys, in order; numeric keys are passed over.
pub open spec fn symbols(order: Seq<KeyModel>) -> Seq<Seq<char>>
    decreases order.len(),
{
    if order.len() == 0 {
        Seq::empty()
    } else {
        match order.last() {
            KeyModel::Symbol(s) => symbols(order.drop_last()).push(s),
            KeyModel::Ulong(_) => symbols(order.drop_last()),
        }
    }
}

/// The values after every pair of `fields` was written in turn.
pub open spec fn values_after(
    values: Map<KeyModel, Option<Seq<char>>>,
    fields: Seq<(Seq<char>, Seq<char>)>,
) -> Map<KeyModel, Option<Seq<char>>>
    decreases fields.len(),
{
    if fields.len() == 0 {
        values
    } else {
        values_after(values, fields.drop_last()).insert(
            KeyModel::Symbol(fields.last().0),
            Some(fields.last().1),
        )
    }
}

/// The key order after every pair of `fields` was written in turn: a key
/// that is new goes last, one that is known keeps its place.
pub open spec fn order_after(
    order: Seq<KeyModel>,
    values: Map<KeyModel, Option<Seq<char>>>,
    fields: Seq<(Seq<char>, Seq<char>)>,
) -> Seq<KeyModel>
    decreases fields.len(),
{
    if fields.len() == 0 {
        order
    } else {
        let key = KeyModel::Symbol(fields.last().0);
        let before = order_after(order, values, fields.drop_last());
        if values_after(values, fields.drop_last()).contains_key(key) {
            before
        } else {
            before.push(key)
        }
    }
}

/// Calls `MessageAnnotations::default`: a map with no entry.
#[verifier::external_body]
fn empty_annotations() -> (fresh: MessageAnnotations)
    ensures
        annotation_values(fresh) == held_values(None),
        annotation_order(fresh) == held_order(None),
{
    MessageAnnotations::default()
}

/// Calls `OrderedMap::insert` with the key as a symbol and the value as a
/// string. As the index map beneath documents it: a known key keeps its place
/// and gets the new value, a new key goes last; no other entry changes.
#[verifier::external_body]
fn insert_text(a: &mut MessageAnnotations, key: &str, value: String)
    ensures
        annotation_values(*final(a)) == annotation_values(*old(a)).insert(
            KeyModel::Symbol(key@),
            Some(value@),
        ),
        annotation_order(*final(a)) == if annotation_values(*old(a)).contains_key(
            KeyModel::Symbol(key@),
        ) {
            annotation_order(*old(a))
        } else {
            annotation_order(*old(a)).push(KeyModel::Symbol(key@))
        },
{
    let key = fe2o3_amqp_types::primitives::Symbol::new(key);
    let key = fe2o3_amqp_types::messaging::annotations::OwnedKey::from(key);
    a.insert(key, value.into());
}

/// Calls `OrderedMap::get` with the key as a symbol and hands out the value
/// where it is the string variant.
#[verifier::external_body]
fn text_at<'a>(a: &'a MessageAnnotations, key: &str) -> (found: Option<&'a str>)
    ensures
        text(found) == text_under(annotation_values(*a), key@),
{
    let key = fe2o3_amqp_types::primitives::Symbol::new(key);
    let key = fe2o3_amqp_types::messaging::annotations::OwnedKey::from(key);
    a.get(&key).and_then(
        |v| match v {
            fe2o3_amqp_types::primitives::Value::String(s) => Some(s.as_str()),
            _ => None,
        },
    )
}

/// Calls `OrderedMap::keys` and hands out each key, symbol or number, in the
/// map's own order. The keys handed out are the keys under which the map
/// holds a value, each of them once.
#[verifier::external_body]
fn all_keys<'a>(a: &'a MessageAnnotations) -> (keys: Vec<Key<'a>>)
    ensures
        keys@.len() == annotation_order(*a).len(),
        forall|i: int| 0 <= i < keys@.len() ==> (#[trigger] keys@[i]).model() == annotation_order(*a)[i],
        forall|k: KeyModel| #[trigger]
            annotation_values(*a).contains_key(k) <==> exists|i: int|
                0 <= i < keys@.len() && (#[trigger] keys@[i]).model() == k,
        forall|i: int, j: int|
            0 <= i < j < keys@.len() ==> (#[trigger] keys@[i]).model() != (#[trigger] keys@[j]).model(),
{
    a.keys().map(
        |k| match k {
            fe2o3_amqp_types::messaging::annotations::OwnedKey::Symbol(s) => Key::Symbol(s.as_str()),
            fe2o3_amqp_types::messaging::annotations::OwnedKey::Ulong(n) => Key::Ulong(*n),
        },
    ).collect()
}

/// Writes into an annotation map.
pub struct AnnotationsInjector;

impl AnnotationsInjector {
    /// Writes one pair under a symbol key with a string value. Under every
    /// other key the map reads as before: the same text, or still none.
    pub fn set(annotations: &mut MessageAnnotations, key: &str, value: String)
        ensures
            annotation_values(*final(annotations)) == annotation_values(*old(annotations)).insert(
                KeyModel::Symbol(key@),
                Some(value@),
            ),
            annotation_order(*final(annotations)) == order_after(
                annotation_order(*old(annotations)),
                annotation_values(*old(annotations)),
                seq![(key@, value@)],
            ),
    {
        proof {
            let one = seq![(key@, value@)];
            assert(one.drop_last() =~= Seq::<(Seq<char>, Seq<char>)>::empty());
            assert(one.last() == (key@, value@));
            reveal_with_fuel(order_after, 2);
            reveal_with_fuel(values_after, 2);
        }
        insert_text(annotations, key, value);
    }
}

/// Reads from an annotation map.
pub struct AnnotationsExtractor<'a>(pub &'a MessageAnnotations);

impl<'a> AnnotationsExtractor<'a> {
    /// The string stored under the symbol `key`, if there is one.
    pub fn lookup(&self, key: &str) -> (found: Option<&'a str>)
        ensures
            text(found) == text_under(annotation_values(*self.0), key@),
    {
        text_at(self.0, key)
    }

    /// The symbol keys in the map's order, each once. Numeric keys are not
    /// enumerated; every symbol under which `lookup` finds a text is.
    pub fn symbol_keys(&self) -> (keys: Vec<&'a str>)
        ensures
            texts(keys@) == symbols(annotation_order(*self.0)),
            texts(keys@).no_duplicates(),
            forall|key: Seq<char>|
                text_under(annotation_values(*self.0), key).is_some() ==> #[trigger] texts(
                    keys@,
                ).contains(key),
    {
        let all = all_keys(self.0);
        let ghost order = annotation_order(*self.0);
        let mut keys: Vec<&'a str> = Vec::new();
        let mut i: usize = 0;
        proof {
            assert(order.take(0) =~= Seq::<KeyModel>::empty());
            assert(texts(keys@) =~= symbols(order.take(0)));
        }
        while i < all.len()
            invariant
                0 <= i <= all.len(),
                all@.len() == order.len(),
                forall|j: int| 0 <= j < all@.len() ==> (#[trigger] all@[j]).model() == order[j],
                texts(keys@) == symbols(order.take(i as int)),
            decreases all.len() - i,
        {
            let ghost before = keys@;
            proof {
                assert(order.take(i + 1).drop_last() =~= order.take(i as int));
                assert(order.take(i + 1).last() == order[i as int]);
                assert(all@[i as int].model() == order[i as int]);
            }
            match &all[i] {
                Key::Symbol(s) => {
                    keys.push(*s);
                    proof {
                        assert(texts(keys@) =~= texts(before).push(s@));
                    }
                },
                Key::Ulong(_) => {},
            }
            i = i + 1;
        }
        proof {
            assert(order.take(i as int) =~= order);
            assert forall|a: int, b: int| 0 <= a < b < order.len() implies order[a] != order[b] by {
                assert(all@[a].model() == order[a]);
                assert(all@[b].model() == order[b]);
            }
            lemma_symbols_of_distinct_keys_are_distinct(order);
            assert forall|key: Seq<char>|
                text_under(annotation_values(*self.0), key).is_some() implies #[trigger] texts(
                keys@,
            ).contains(key) by {
                let wanted = KeyModel::Symbol(key);
                assert(annotation_values(*self.0).contains_key(wanted));
                let at = choose|j: int| 0 <= j < all@.len() && (#[trigger] all@[j]).model() == wanted;
                assert(order[at] == wanted);
                lemma_symbols_are_the_symbol_keys(order, key);
            }
        }
        keys
    }
}

impl opentelemetry::propagation::Extractor for AnnotationsExtractor<'_> {
    /// The string stored under the symbol `key`, as `lookup` finds it.
    fn get(&self, key: &str) -> (found: Option<&str>)
        ensures
            text(found) == text_under(annotation_values(*self.0), key@),
    {
        self.lookup(key)
    }

    /// The symbol keys in the map's order, as `symbol_keys` lists them.
    fn keys(&self) -> (keys: Vec<&str>)
        ensures
            texts(keys@) == symbols(annotation_order(*self.0)),
            texts(keys@).no_duplicates(),
            forall|key: Seq<char>|
                text_under(annotation_values(*self.0), key).is_some() ==> #[trigger] texts(
                    keys@,
                ).contains(key),
    {
        self.symbol_keys()
    }
}

/// Calls `opentelemetry::global::get_text_map_propagator` and, on the
/// propagator it yields, `extract_with_context` with an empty context and the
/// annotations as carrier, so that nothing ambient comes back where the
/// carrier holds no context. Which propagator is installed is process state,
/// so nothing is claimed of the context that comes back.
#[verifier::external_body]
fn extract_context(carrier: &AnnotationsExtractor<'_>) -> (ctx: opentelemetry::Context) {
    opentelemetry::global::get_text_map_propagator(
        |p| p.extract_with_context(&opentelemetry::Context::new(), carrier),
    )
}

/// Writes every pair of `fields`, in order, into the annotations of a
/// message. A message without annotations gets a map on the first write; with
/// nothing to write it stays without one.
pub fn inject_fields(annotations: &mut Option<MessageAnnotations>, fields: &Vec<(String, String)>)
    ensures
        final(annotations).is_some() <==> old(annotations).is_some() || fields@.len() > 0,
        held_values(*final(annotations)) == values_after(
            held_values(*old(annotations)),
            pairs(fields@),
        ),
        held_order(*final(annotations)) == order_after(
            held_order(*old(annotations)),
            held_values(*old(annotations)),
            pairs(fields@),
        ),
{
    if fields.len() == 0 {
        return ;
    }
    let ghost all = pairs(fields@);
    let ghost base_values = held_values(*annotations);
    let ghost base_order = held_order(*annotations);
    let mut held = match annotations.take() {
        Some(a) => a,
        None => empty_annotations(),
    };
    let mut i: usize = 0;
    proof {
        assert(all.take(0) =~= Seq::<(Seq<char>, Seq<char>)>::empty());
    }
    while i < fields.len()
        invariant
            0 <= i <= fields.len(),
            all == pairs(fields@),
            annotation_values(held) == values_after(base_values, all.take(i as int)),
            annotation_order(held) == order_after(base_order, base_values, all.take(i as int)),
        decreases fields.len() - i,
    {
        proof {
            assert(all.take(i + 1).drop_last() =~= all.take(i as int));
            assert(all.take(i + 1).last() == (fields@[i as int].0@, fields@[i as int].1@));
        }
        let value = fields[i].1.clone();
        insert_text(&mut held, fields[i].0.as_str(), value);
        i = i + 1;
    }
    proof {
        assert(all.take(i as int) =~= all);
    }
    *annotations = Some(held);
}

/// The values of a message's annotations; none where it has no map.
pub open spec fn held_values(annotations: Option<MessageAnnotations>) -> Map<
    KeyModel,
    Option<Seq<char>>,
> {
    match annotations {
        Some(a) => annotation_values(a),
        None => Map::empty(),
    }
}

/// The key order of a message's annotations; empty where it has no map.
pub open spec fn held_order(annotations: Option<MessageAnnotations>) -> Seq<KeyModel> {
    match annotations {
        Some(a) => annotation_order(a),
        None => Seq::empty(),
    }
}

/// Injects a context into the annotations of an outgoing message: whatever
/// the installed propagator writes for `ctx` is written under symbol keys.
pub fn export_trace(ctx: &opentelemetry::Context, annotations: &mut Option<MessageAnnotations>)
    ensures
        exists|fields: Seq<(Seq<char>, Seq<char>)>|
            {
                &&& final(annotations).is_some() <==> old(annotations).is_some() || fields.len() > 0
                &&& held_values(*final(annotations)) == #[trigger] values_after(
                    held_values(*old(annotations)),
                    fields,
                )
                &&& held_order(*final(annotations)) == order_after(
                    held_order(*old(annotations)),
                    held_values(*old(annotations)),
                    fields,
                )
            },
{
    let fields = propagated_fields(ctx);
    inject_fields(annotations, &fields);
    proof {
        let written = pairs(fields@);
        assert(held_values(*annotations) == values_after(held_values(*old(annotations)), written));
    }
}

/// Extracts the span that a consumed message carries, to be linked to the
/// span that handles the message. A message without annotations yields no
/// link, and so does one whose annotations carry no span: a link always
/// identifies a span.
pub fn import_trace(annotations: &Option<MessageAnnotations>) -> (link: Option<SpanLink>)
    ensures
        annotations.is_none() ==> link.is_none(),
        link.is_some() ==> link.unwrap().is_valid(),
{
    match annotations {
        Some(a) => {
            let context = extract_context(&AnnotationsExtractor(a));
            span_of(&context).checked()
        },
        None => None,
    }
}

/// What a run holds after a push: what it held, and the new item.
proof fn lemma_push_contains<A>(items: Seq<A>, last: A, wanted: A)
    ensures
        items.push(last).contains(wanted) <==> items.contains(wanted) || last == wanted,
{
    let longer = items.push(last);
    if items.contains(wanted) {
        let at = choose|i: int| 0 <= i < items.len() && items[i] == wanted;
        assert(longer[at] == wanted);
    }
    if last == wanted {
        assert(longer[items.len() as int] == wanted);
    }
    if longer.contains(wanted) {
        let at = choose|i: int| 0 <= i < longer.len() && longer[i] == wanted;
        if at < items.len() {
            assert(items[at] == wanted);
        }
    }
}

/// The enumerated symbols are the symbol keys of the run, no more and no
/// fewer.
pub proof fn lemma_symbols_are_the_symbol_keys(order: Seq<KeyModel>, symbol: Seq<char>)
    ensures
        symbols(order).contains(symbol) <==> order.contains(KeyModel::Symbol(symbol)),
    decreases order.len(),
{
    if order.len() > 0 {
        let rest = order.drop_last();
        lemma_symbols_are_the_symbol_keys(rest, symbol);
        assert(order =~= rest.push(order.last()));
        lemma_push_contains(rest, order.last(), KeyModel::Symbol(symbol));
        match order.last() {
            KeyModel::Symbol(s) => {
                lemma_push_contains(symbols(rest), s, symbol);
            },
            KeyModel::Ulong(_) => {},
        }
    }
}

/// Where no key occurs twice in a run, no symbol is enumerated twice.
pub proof fn lemma_symbols_of_distinct_keys_are_distinct(order: Seq<KeyModel>)
    requires
        forall|a: int, b: int| 0 <= a < b < order.len() ==> order[a] != order[b],
    ensures
        symbols(order).no_duplicates(),
    decreases order.len(),
{
    if order.len() > 0 {
        let rest = order.drop_last();
        assert forall|a: int, b: int| 0 <= a < b < rest.len() implies rest[a] != rest[b] by {
            assert(rest[a] == order[a]);
            assert(rest[b] == order[b]);
        }
        lemma_symbols_of_distinct_keys_are_distinct(rest);
        match order.last() {
            KeyModel::Symbol(s) => {
                lemma_symbols_are_the_symbol_keys(rest, s);
                if rest.contains(KeyModel::Symbol(s)) {
                    let at = choose|i: int| 0 <= i < rest.len() && rest[i] == KeyModel::Symbol(s);
                    assert(order[at] == order[order.len() - 1]);
                }
                let before = symbols(rest);
                let after = before.push(s);
                assert forall|a: int, b: int|
                    0 <= a < after.len() && 0 <= b < after.len() && a != b implies after[a]
                    != after[b] by {
                    if a < before.len() && b < before.len() {
                        assert(before[a] != before[b]);
                    } else if a < before.len() {
                        assert(before.contains(before[a]));
                    } else {
                        assert(before.contains(before[b]));
                    }
                }
            },
            KeyModel::Ulong(_) => {},
        }
    }
}

/// A text written under a symbol is the text read under it, and what is read
/// under any other symbol stays the same.
pub proof fn lemma_written_text_is_read(
    values: Map<KeyModel, Option<Seq<char>>>,
    key: Seq<char>,
    value: Seq<char>,
    other: Seq<char>,
)
    ensures
        text_under(values.insert(KeyModel::Symbol(key), Some(value)), key) == Some(value),
        other != key ==> text_under(values.insert(KeyModel::Symbol(key), Some(value)), other)
            == text_under(values, other),
{
}

/// After a run of writes, a symbol reads as the last pair written under it.
pub proof fn lemma_last_write_is_read(
    values: Map<KeyModel, Option<Seq<char>>>,
    fields: Seq<(Seq<char>, Seq<char>)>,
    i: int,
)
    requires
        0 <= i < fields.len(),
        forall|j: int| i < j < fields.len() ==> (#[trigger] fields[j]).0 != fields[i].0,
    ensures
        text_under(values_after(values, fields), fields[i].0) == Some(fields[i].1),
    decreases fields.len(),
{
    if i < fields.len() - 1 {
        let rest = fields.drop_last();
        assert(rest[i] == fields[i]);
        assert forall|j: int| i < j < rest.len() implies (#[trigger] rest[j]).0 != rest[i].0 by {
            assert(rest[j] == fields[j]);
        }
        lemma_last_write_is_read(values, rest, i);
        assert(fields.last() == fields[fields.len() - 1]);
        assert(fields.last().0 != fields[i].0);
    }
}

/// A symbol that no pair of a run names reads after the run as before it.
pub proof fn lemma_unwritten_symbol_keeps_text(
    values: Map<KeyModel, Option<Seq<char>>>,
    fields: Seq<(Seq<char>, Seq<char>)>,
    key: Seq<char>,
)
    requires
        forall|j: int| 0 <= j < fields.len() ==> (#[trigger] fields[j]).0 != key,
    ensures
        text_under(values_after(values, fields), key) == text_under(values, key),
    decreases fields.len(),
{
    if fields.len() > 0 {
        let rest = fields.drop_last();
        assert forall|j: int| 0 <= j < rest.len() implies (#[trigger] rest[j]).0 != key by {
            assert(rest[j] == fields[j]);
        }
        lemma_unwritten_symbol_keeps_text(values, rest, key);
        assert(fields.last() == fields[fields.len() - 1]);
    }
}

/// No run of writes adds, removes or alters an entry under a numeric key.
pub proof fn lemma_numeric_entries_stay(
    values: Map<KeyModel, Option<Seq<char>>>,
    fields: Seq<(Seq<char>, Seq<char>)>,
    n: u64,
)
    ensures
        values_after(values, fields).contains_key(KeyModel::Ulong(n)) == values.contains_key(
            KeyModel::Ulong(n),
        ),
        values.contains_key(KeyModel::Ulong(n)) ==> values_after(values, fields)[KeyModel::Ulong(n)]
            == values[KeyModel::Ulong(n)],
    decreases fields.len(),
{
    if fields.len() > 0 {
        lemma_numeric_entries_stay(values, fields.drop_last(), n);
    }
}

/// A run of writes keeps the keys that were there in their places: the old
/// order is the start of the new one.
pub proof fn lemma_known_keys_keep_their_place(
    order: Seq<KeyModel>,
    values: Map<KeyModel, Option<Seq<char>>>,
    fields: Seq<(Seq<char>, Seq<char>)>,
)
    ensures
        order.len() <= order_after(order, values, fields).len(),
        order_after(order, values, fields).take(order.len() as int) == order,
    decreases fields.len(),
{
    if fields.len() > 0 {
        lemma_known_keys_keep_their_place(order, values, fields.drop_last());
        let before = order_after(order, values, fields.drop_last());
        let after = order_after(order, values, fields);
        assert(after.take(order.len() as int) =~= before.take(order.len() as int));
    } else {
        assert(order.take(order.len() as int) =~= order);
    }
}

/// After a run of writes a key holds a value where it held one before or a
/// pair of the run names it.
pub proof fn lemma_written_keys(
    values: Map<KeyModel, Option<Seq<char>>>,
    fields: Seq<(Seq<char>, Seq<char>)>,
    key: KeyModel,
)
    ensures
        values_after(values, fields).contains_key(key) <==> values.contains_key(key) || exists|
            j: int,
        |
            0 <= j < fields.len() && KeyModel::Symbol((#[trigger] fields[j]).0) == key,
    decreases fields.len(),
{
    if fields.len() > 0 {
        let rest = fields.drop_last();
        let last = fields.len() - 1;
        lemma_written_keys(values, rest, key);
        assert(fields.last() == fields[last]);
        if exists|j: int| 0 <= j < rest.len() && KeyModel::Symbol((#[trigger] rest[j]).0) == key {
            let j = choose|j: int|
                0 <= j < rest.len() && KeyModel::Symbol((#[trigger] rest[j]).0) == key;
            assert(fields[j] == rest[j]);
        }
        if exists|j: int| 0 <= j < fields.len() && KeyModel::Symbol((#[trigger] fields[j]).0) == key {
            let j = choose|j: int|
                0 <= j < fields.len() && KeyModel::Symbol((#[trigger] fields[j]).0) == key;
            if j < last {
                assert(rest[j] == fields[j]);
            }
        }
    }
}

/// What is written into a message without annotations comes out as it went
/// in: where no two pairs share a key, the enumerated symbols are the keys of
/// the pairs in the order of writing, and each key reads as its value.
pub proof fn lemma_fresh_annotations_give_back_what_was_written(fields: Seq<(Seq<char>, Seq<char>)>)
    requires
        forall|i: int, j: int|
            0 <= i < j < fields.len() ==> (#[trigger] fields[i]).0 != (#[trigger] fields[j]).0,
    ensures
        symbols(order_after(held_order(None), held_values(None), fields)) == Seq::new(
            fields.len(),
            |i: int| fields[i].0,
        ),
        forall|i: int|
            0 <= i < fields.len() ==> text_under(
                values_after(held_values(None), fields),
                (#[trigger] fields[i]).0,
            ) == Some(fields[i].1),
    decreases fields.len(),
{
    assert forall|i: int| 0 <= i < fields.len() implies text_under(
        values_after(held_values(None), fields),
        (#[trigger] fields[i]).0,
    ) == Some(fields[i].1) by {
        lemma_last_write_is_read(held_values(None), fields, i);
    }
    let keys = Seq::new(fields.len(), |i: int| fields[i].0);
    if fields.len() == 0 {
        assert(symbols(held_order(None)) =~= keys);
    } else {
        let rest = fields.drop_last();
        let last = fields.len() - 1;
        assert(fields.last() == fields[last]);
        assert forall|i: int, j: int| 0 <= i < j < rest.len() implies (#[trigger] rest[i]).0 != (
        #[trigger] rest[j]).0 by {
            assert(rest[i] == fields[i]);
            assert(rest[j] == fields[j]);
        }
        lemma_fresh_annotations_give_back_what_was_written(rest);
        let new_key = KeyModel::Symbol(fields[last].0);
        lemma_written_keys(held_values(None), rest, new_key);
        if exists|j: int| 0 <= j < rest.len() && KeyModel::Symbol((#[trigger] rest[j]).0) == new_key {
            let j = choose|j: int|
                0 <= j < rest.len() && KeyModel::Symbol((#[trigger] rest[j]).0) == new_key;
            assert(rest[j] == fields[j]);
            assert(fields[j].0 != fields[last].0);
        }
        let before = order_after(held_order(None), held_values(None), rest);
        let after = order_after(held_order(None), held_values(None), fields);
        assert(after == before.push(new_key));
        assert(after.drop_last() =~= before);
        assert(after.last() == new_key);
        assert(symbols(after) =~= keys);
    }
}

/// A message without annotations holds no text under any symbol and
/// enumerates no key.
pub proof fn lemma_missing_annotations_hold_nothing(key: Seq<char>)
    ensures
        text_under(held_values(None), key) == None::<Seq<char>>,
        symbols(held_order(None)) == Seq::<Seq<char>>::empty(),
{
}

/// A numeric key is never enumerated: appending one to a run of keys leaves
/// the enumerated symbols as they were.
pub proof fn lemma_numeric_key_is_not_enumerated(order: Seq<KeyModel>, n: u64)
    ensures
        symbols(order.push(KeyModel::Ulong(n))) == symbols(order),
{
    let longer = order.push(KeyModel::Ulong(n));
    assert(longer.drop_last() =~= order);
    assert(longer.last() == KeyModel::Ulong(n));
}

} // verus!
