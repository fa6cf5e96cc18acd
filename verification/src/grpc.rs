//! Trace propagation through the metadata of an outgoing RPC and the headers
//! of an incoming one.

use crate::propagation::{current_context, pairs, propagated_fields, text, texts};
use vstd::prelude::*;

verus! {

#[verifier::external_type_specification]
#[verifier::external_body]
pub struct ExMetadataMap(tonic::metadata::MetadataMap);

#[verifier::external_type_specification]
#[verifier::external_body]
pub struct ExHeaderValue(http::HeaderValue);

#[verifier::external_type_specification]
#[verifier::external_body]
pub struct ExStatus(tonic::Status);

#[verifier::external_type_specification]
#[verifier::external_body]
#[verifier::reject_recursive_types(T)]
pub struct ExRequest<T>(tonic::Request<T>);

#[verifier::external_type_specification]
#[verifier::external_body]
#[verifier::reject_recursive_types(T)]
pub struct ExHeaderMap<T>(http::HeaderMap<T>);

/// A character that a header name may hold.
pub open spec fn is_token(c: char) -> bool {
    let n = c as u32;
    n == 33 || (35 <= n && n <= 39) || n == 42 || n == 43 || n == 45 || n == 46 || (48 <= n && n
        <= 57) || (65 <= n && n <= 90) || (94 <= n && n <= 122) || n == 124 || n == 126
}

/// The character as a header name stores it: an upper-case letter becomes
/// the lower-case one.
pub open spec fn lower(c: char) -> char {
    if 65 <= c as u32 && c as u32 <= 90 {
        ((c as u32 + 32) as u32) as char
    } else {
        c
    }
}

/// The name under which a header map stores and looks up a key: the key in
/// lower case. `None` where the key is empty, longer than 65535 characters,
/// or holds a character that no header name may hold.
pub open spec fn header_name(key: Seq<char>) -> Option<Seq<char>> {
    if 1 <= key.len() && key.len() <= 65535 && (forall|i: int|
        0 <= i < key.len() ==> is_token(#[trigger] key[i])) {
        Some(Seq::new(key.len(), |i: int| lower(key[i])))
    } else {
        None
    }
}

/// Whether a name ends in `-bin`, the mark of a binary metadata key.
pub open spec fn ends_in_bin(name: Seq<char>) -> bool {
    name.len() >= 4 && name[name.len() - 4] == '-' && name[name.len() - 3] == 'b' && name[name.len()
        - 2] == 'i' && name[name.len() - 1] == 'n'
}

/// The name under which an ASCII metadata key is stored: its header name,
/// unless that marks a binary key.
pub open spec fn metadata_key(key: Seq<char>) -> Option<Seq<char>> {
    match header_name(key) {
        Some(name) => if ends_in_bin(name) {
            None
        } else {
            Some(name)
        },
        None => None,
    }
}

/// What a metadata map holds as text: under each name the first value, where
/// that value is visible ASCII.
pub uninterp spec fn metadata_text(map: tonic::metadata::MetadataMap) -> Map<Seq<char>, Seq<char>>;

/// Whether the map takes a write under the name. A header map refuses one
/// only where it has grown to its largest size.
pub uninterp spec fn metadata_takes(map: tonic::metadata::MetadataMap, name: Seq<char>) -> bool;

/// The number of names under which a metadata map holds a value.
pub uninterp spec fn metadata_names(map: tonic::metadata::MetadataMap) -> nat;

/// The number of names that a map may hold and still take any write. A
/// header map refuses a write only where it would have to grow beyond 32768
/// slots, and it grows only once it holds a fifth as many names as it has
/// slots, so a map that refuses holds more names than this.
pub open spec fn room() -> nat {
    3276
}

/// What a header map holds as text: under each name the first value, where
/// that value is visible ASCII.
pub uninterp spec fn header_text(headers: http::HeaderMap<http::HeaderValue>) -> Map<
    Seq<char>,
    Seq<char>,
>;

/// What the metadata map of a request holds as text.
pub uninterp spec fn request_text(request: tonic::Request<()>) -> Map<Seq<char>, Seq<char>>;

/// The number of names under which the metadata map of a request holds a
/// value.
pub uninterp spec fn request_names(request: tonic::Request<()>) -> nat;

/// The names of a header map, each once, in the order in which it walks them.
pub uninterp spec fn header_names(headers: http::HeaderMap<http::HeaderValue>) -> Seq<Seq<char>>;

/// A character that the parser of metadata values takes: anything from the
/// space on but the delete character, and the tab.
pub open spec fn accepted(c: char) -> bool {
    (' ' <= c && c != '\u{7f}') || c == '\t'
}

/// A character of a metadata value: printable ASCII or the tab.
pub open spec fn visible(c: char) -> bool {
    (' ' <= c && c < '\u{7f}') || c == '\t'
}

pub open spec fn accepted_value(value: Seq<char>) -> bool {
    forall|i: int| 0 <= i < value.len() ==> accepted(#[trigger] value[i])
}

pub open spec fn visible_value(value: Seq<char>) -> bool {
    forall|i: int| 0 <= i < value.len() ==> visible(#[trigger] value[i])
}

/// A pair that the metadata carrier takes: the key names an ASCII entry and
/// the value is printable ASCII.
pub open spec fn valid_pair(key: Seq<char>, value: Seq<char>) -> bool {
    metadata_key(key).is_some() && visible_value(value)
}

/// Whether a pair offered to the map is stored: it is where it is valid and
/// the map takes a write under its name.
pub open spec fn offer_taken(map: tonic::metadata::MetadataMap, key: Seq<char>, value: Seq<char>) -> bool {
    valid_pair(key, value) && metadata_takes(map, metadata_key(key).unwrap())
}

/// What the map reads as after a pair was offered to it: a pair that is
/// stored replaces what stood under its name, any other changes nothing.
pub open spec fn text_after_offer(
    map: tonic::metadata::MetadataMap,
    key: Seq<char>,
    value: Seq<char>,
) -> Map<Seq<char>, Seq<char>> {
    if offer_taken(map, key, value) {
        metadata_text(map).insert(metadata_key(key).unwrap(), value)
    } else {
        metadata_text(map)
    }
}

/// The text of a map after the pairs of `fields` were offered in turn, where
/// `stored` tells of each whether the map took it.
pub open spec fn entries_after(
    entries: Map<Seq<char>, Seq<char>>,
    fields: Seq<(Seq<char>, Seq<char>)>,
    stored: Seq<bool>,
) -> Map<Seq<char>, Seq<char>>
    decreases fields.len(),
{
    if fields.len() == 0 || stored.len() != fields.len() {
        entries
    } else {
        let before = entries_after(entries, fields.drop_last(), stored.drop_last());
        if stored.last() && metadata_key(fields.last().0).is_some() {
            before.insert(metadata_key(fields.last().0).unwrap(), fields.last().1)
        } else {
            before
        }
    }
}

/// Whether `states` are the maps that a run of offers went through, from the
/// map before the first offer to the map after the last, and `stored` tells
/// of each offer whether it was taken.
pub open spec fn offers_run(
    states: Seq<tonic::metadata::MetadataMap>,
    fields: Seq<(Seq<char>, Seq<char>)>,
    stored: Seq<bool>,
) -> bool {
    &&& states.len() == fields.len() + 1
    &&& stored.len() == fields.len()
    &&& forall|i: int|
        0 <= i < fields.len() ==> (#[trigger] stored[i]) == offer_taken(
            states[i],
            fields[i].0,
            fields[i].1,
        ) && metadata_text(states[i + 1]) == text_after_offer(states[i], fields[i].0, fields[i].1)
            && (valid_pair(fields[i].0, fields[i].1) && metadata_names(states[i]) <= room()
            ==> stored[i]) && metadata_names(states[i + 1]) <= metadata_names(states[i]) + 1
}

/// The names among `names` under which a lookup finds a text, in order.
pub open spec fn readable(names: Seq<Seq<char>>, entries: Map<Seq<char>, Seq<char>>) -> Seq<
    Seq<char>,
>
    decreases names.len(),
{
    if names.len() == 0 {
        Seq::empty()
    } else {
        let before = readable(names.drop_last(), entries);
        if header_under(entries, header_name(names.last())).is_some() {
            before.push(names.last())
        } else {
            before
        }
    }
}

/// What a lookup in a header map yields for a key with the given name.
pub open spec fn header_under(entries: Map<Seq<char>, Seq<char>>, name: Option<Seq<char>>) -> Option<
    Seq<char>,
> {
    match name {
        Some(name) => if entries.contains_key(name) {
            Some(entries[name])
        } else {
            None
        },
        None => None,
    }
}

/// Parses the key as a `tonic::metadata::AsciiMetadataKey` and tells whether
/// that succeeded. The parser takes a key of 1 to 65535 bytes, each of them a
/// character of header names, whose lower-case form does not end in `-bin`.
#[verifier::external_body]
fn key_accepted(key: &str) -> (ok: bool)
    ensures
        ok == metadata_key(key@).is_some(),
{
    key.parse::<tonic::metadata::AsciiMetadataKey>().is_ok()
}

/// Parses the value as a `tonic::metadata::AsciiMetadataValue` and tells
/// whether that succeeded. The parser beneath refuses a byte below 32 other
/// than the tab, and the byte 127; every byte of a character beyond ASCII is
/// above 127.
#[verifier::external_body]
fn value_accepted(value: &str) -> (ok: bool)
    ensures
        ok == accepted_value(value@),
{
    value.parse::<tonic::metadata::AsciiMetadataValue>().is_ok()
}

/// Calls `http::HeaderMap::try_insert` on the header map inside the metadata
/// map, with the key and value parsed as a header name and value. Where the
/// map takes the write, the value replaces every value under the name, so
/// that the map holds at most one name more; where it does not, the map stays
/// as it was. A map that holds no more than `room()` names takes the write.
/// The error of `try_insert` comes from two places, `try_grow` asked for more
/// than 32768 slots and `try_insert_entry` on a map of 32768 names; the first
/// is reached only from a map whose names are at least a fifth of more than
/// 16384 slots.
#[verifier::external_body]
fn store(map: &mut tonic::metadata::MetadataMap, key: &str, value: &str) -> (stored: bool)
    requires
        valid_pair(key@, value@),
    ensures
        stored == metadata_takes(*old(map), metadata_key(key@).unwrap()),
        metadata_text(*final(map)) == text_after_offer(*old(map), key@, value@),
        metadata_names(*old(map)) <= room() ==> stored,
        metadata_names(*final(map)) <= metadata_names(*old(map)) + 1,
{
    let name = http::HeaderName::from_bytes(key.as_bytes());
    let value = http::HeaderValue::from_str(value);
    match (name, value) {
        (Ok(name), Ok(value)) => map.as_mut().try_insert(name, value).is_ok(),
        _ => false,
    }
}

/// Calls `tonic::metadata::MetadataMap::keys_len`: the number of names in
/// the map.
#[verifier::external_body]
fn names_in(map: &tonic::metadata::MetadataMap) -> (count: usize)
    ensures
        count == metadata_names(*map),
{
    map.keys_len()
}

/// Calls `http::HeaderMap::get` with the key as text, and `to_str` on the
/// value found.
#[verifier::external_body]
fn header_at<'a>(headers: &'a http::HeaderMap, key: &str) -> (found: Option<&'a str>)
    ensures
        text(found) == header_under(header_text(*headers), header_name(key@)),
{
    headers.get(key).and_then(|a| a.to_str().ok())
}

/// Calls `http::HeaderMap::keys` and hands out each name as text.
#[verifier::external_body]
fn names_of<'a>(headers: &'a http::HeaderMap) -> (names: Vec<&'a str>)
    ensures
        texts(names@) == header_names(*headers),
{
    headers.keys().map(http::HeaderName::as_str).collect()
}

/// Writes into the metadata of an outgoing call.
pub struct MetadataInjector;

impl MetadataInjector {
    /// The number of names that the metadata holds. A map that holds no more
    /// than `room()` names stores every valid pair that `set` offers to it.
    pub fn names_held(metadata: &tonic::metadata::MetadataMap) -> (count: usize)
        ensures
            count == metadata_names(*metadata),
    {
        names_in(metadata)
    }

    /// Offers one pair to the metadata. A pair that is not valid is dropped
    /// and the metadata stays as it was; a valid one replaces what stood under
    /// its name, unless the map takes no further write. A map with room takes
    /// it.
    pub fn set(metadata: &mut tonic::metadata::MetadataMap, key: &str, value: &str) -> (stored: bool)
        ensures
            stored == offer_taken(*old(metadata), key@, value@),
            metadata_text(*final(metadata)) == text_after_offer(*old(metadata), key@, value@),
            valid_pair(key@, value@) && metadata_names(*old(metadata)) <= room() ==> stored,
            metadata_names(*final(metadata)) <= metadata_names(*old(metadata)) + 1,
    {
        let key_ok = key_accepted(key);
        let value_ok = value_accepted(value) && value.is_ascii();
        proof {
            lemma_visible_is_accepted_ascii(value@);
        }
        if key_ok && value_ok {
            store(metadata, key, value)
        } else {
            false
        }
    }
}

/// Offers every pair of `fields`, in order, to the metadata of an outgoing
/// call and tells of each whether it was stored. Each pair is offered to the
/// map as the pairs before it left it; none of them keeps the later ones from
/// being offered.
pub fn inject_fields(metadata: &mut tonic::metadata::MetadataMap, fields: &Vec<(String, String)>) -> (stored: Vec<bool>)
    ensures
        stored@.len() == fields@.len(),
        exists|states: Seq<tonic::metadata::MetadataMap>|
            #[trigger] offers_run(states, pairs(fields@), stored@) && states[0] == *old(metadata)
                && states.last() == *final(metadata),
        metadata_text(*final(metadata)) == entries_after(
            metadata_text(*old(metadata)),
            pairs(fields@),
            stored@,
        ),
        metadata_names(*old(metadata)) + fields@.len() <= room() + 1 ==> forall|i: int|
            0 <= i < fields@.len() ==> (#[trigger] stored@[i]) == valid_pair(
                fields@[i].0@,
                fields@[i].1@,
            ),
{
    let ghost all = pairs(fields@);
    let ghost base = metadata_text(*metadata);
    let ghost mut states: Seq<tonic::metadata::MetadataMap> = seq![*metadata];
    let mut stored: Vec<bool> = Vec::new();
    let mut i: usize = 0;
    proof {
        assert(all.take(0) =~= Seq::<(Seq<char>, Seq<char>)>::empty());
    }
    while i < fields.len()
        invariant
            0 <= i <= fields.len(),
            all == pairs(fields@),
            stored@.len() == i,
            states.len() == i + 1,
            states[0] == *old(metadata),
            states[i as int] == *metadata,
            forall|j: int|
                0 <= j < i ==> (#[trigger] stored@[j]) == offer_taken(states[j], all[j].0, all[j].1)
                    && metadata_text(states[j + 1]) == text_after_offer(
                    states[j],
                    all[j].0,
                    all[j].1,
                ) && (valid_pair(all[j].0, all[j].1) && metadata_names(states[j]) <= room()
                    ==> stored@[j]) && metadata_names(states[j + 1]) <= metadata_names(states[j])
                    + 1,
            metadata_text(*metadata) == entries_after(base, all.take(i as int), stored@),
        decreases fields.len() - i,
    {
        let ghost before = stored@;
        let ghost passed = states;
        let done = MetadataInjector::set(metadata, fields[i].0.as_str(), fields[i].1.as_str());
        stored.push(done);
        proof {
            states = states.push(*metadata);
            assert(all[i as int] == (fields@[i as int].0@, fields@[i as int].1@));
            assert(all.take(i + 1).drop_last() =~= all.take(i as int));
            assert(all.take(i + 1).last() == all[i as int]);
            assert(stored@.drop_last() =~= before);
            assert(stored@.last() == done);
            assert forall|j: int| 0 <= j < i + 1 implies (#[trigger] stored@[j]) == offer_taken(
                states[j],
                all[j].0,
                all[j].1,
            ) && metadata_text(states[j + 1]) == text_after_offer(states[j], all[j].0, all[j].1)
                && (valid_pair(all[j].0, all[j].1) && metadata_names(states[j]) <= room()
                ==> stored@[j]) && metadata_names(states[j + 1]) <= metadata_names(states[j])
                + 1 by {
                if j < i {
                    assert(stored@[j] == before[j]);
                    assert(states[j] == passed[j]);
                    assert(states[j + 1] == passed[j + 1]);
                }
            }
        }
        i = i + 1;
    }
    proof {
        assert(all.take(i as int) =~= all);
        assert(offers_run(states, all, stored@));
        if metadata_names(*old(metadata)) + fields@.len() <= room() + 1 {
            lemma_map_with_room_stores_every_valid_pair(states, all, stored@);
            assert forall|i: int| 0 <= i < fields@.len() implies (#[trigger] stored@[i])
                == valid_pair(fields@[i].0@, fields@[i].1@) by {
                assert(all[i] == (fields@[i].0@, fields@[i].1@));
            }
        }
    }
    stored
}

/// Whether `after` is the map that `before` became through some run of
/// offers.
pub open spec fn offered_to(before: tonic::metadata::MetadataMap, after: tonic::metadata::MetadataMap) -> bool {
    exists|states: Seq<tonic::metadata::MetadataMap>, fields: Seq<(Seq<char>, Seq<char>)>, stored: Seq<bool>|
        #[trigger] offers_run(states, fields, stored) && states[0] == before && states.last()
            == after
}

/// The client-side interceptor: writes the active context into the metadata
/// of every outgoing call.
#[derive(Clone, Copy)]
pub struct TraceInjector;

impl TraceInjector {
    /// Offers to the metadata, pair by pair, what the installed propagator
    /// yields for the context that is active on this thread. Whatever it
    /// yields, only valid pairs reach the metadata, and the call never fails.
    pub fn inject(&self, metadata: &mut tonic::metadata::MetadataMap)
        ensures
            offered_to(*old(metadata), *final(metadata)),
            reached_by_offers(
                metadata_text(*old(metadata)),
                metadata_names(*old(metadata)),
                metadata_text(*final(metadata)),
            ),
    {
        let context = current_context();
        let fields = propagated_fields(&context);
        let stored = inject_fields(metadata, &fields);
        proof {
            let offers = pairs(fields@);
            let states = choose|states: Seq<tonic::metadata::MetadataMap>|
                #[trigger] offers_run(states, offers, stored@) && states[0] == *old(metadata)
                    && states.last() == *metadata;
            assert(offers_run(states, offers, stored@));
            assert(metadata_text(states.last()) == entries_after(
                metadata_text(states[0]),
                offers,
                stored@,
            ));
        }
    }
}

/// Calls `tonic::Request::metadata_mut`: the metadata map of the request,
/// to be written in place. What the map holds when the borrow ends is what
/// the request's metadata holds from then on.
#[verifier::external_body]
fn metadata_of<'a>(request: &'a mut tonic::Request<()>) -> (metadata: &'a mut tonic::metadata::MetadataMap)
    ensures
        metadata_text(*metadata) == request_text(*old(request)),
        metadata_names(*metadata) == request_names(*old(request)),
        request_text(*final(request)) == metadata_text(*final(metadata)),
{
    request.metadata_mut()
}

/// Whether a map that read as `before` and held `names` names reads as
/// `after` once some run of pairs was offered to it, each pair stored where
/// it was valid and the map took it.
pub open spec fn reached_by_offers(
    before: Map<Seq<char>, Seq<char>>,
    names: nat,
    after: Map<Seq<char>, Seq<char>>,
) -> bool {
    exists|states: Seq<tonic::metadata::MetadataMap>, fields: Seq<(Seq<char>, Seq<char>)>, stored: Seq<bool>|
        {
            &&& #[trigger] offers_run(states, fields, stored)
            &&& metadata_text(states[0]) == before
            &&& metadata_names(states[0]) == names
            &&& metadata_text(states.last()) == after
            &&& after == entries_after(before, fields, stored)
        }
}

impl TraceInjector {
    /// Writes the active context into the metadata of a request and passes
    /// the request on. Whatever is dropped on the way, the call goes ahead:
    /// the result is the request, its metadata holding what the propagator
    /// offered and the map took.
    pub fn intercept(&self, mut request: tonic::Request<()>) -> (passed: Result<
        tonic::Request<()>,
        tonic::Status,
    >)
        ensures
            passed.is_ok(),
            reached_by_offers(
                request_text(request),
                request_names(request),
                request_text(passed.unwrap()),
            ),
    {
        let ghost before = request_text(request);
        let ghost names = request_names(request);
        let metadata = metadata_of(&mut request);
        self.inject(metadata);
        assert(reached_by_offers(before, names, request_text(request)));
        Ok(request)
    }
}

impl tonic::service::Interceptor for TraceInjector {
    /// Passes the request on as `intercept` does.
    fn call(&mut self, req: tonic::Request<()>) -> (passed: Result<tonic::Request<()>, tonic::Status>)
        ensures
            passed.is_ok(),
            reached_by_offers(
                request_text(req),
                request_names(req),
                request_text(passed.unwrap()),
            ),
    {
        self.intercept(req)
    }
}

/// Reads from the headers of an incoming call.
pub struct HeadersExtractor<'a>(pub &'a http::HeaderMap);

impl<'a> HeadersExtractor<'a> {
    /// The first value under `key`, where it is visible ASCII; a value that
    /// does not decode counts as absent.
    pub fn lookup(&self, key: &str) -> (found: Option<&'a str>)
        ensures
            text(found) == header_under(header_text(*self.0), header_name(key@)),
    {
        header_at(self.0, key)
    }

    /// The names of the headers under which `lookup` finds a text, in the
    /// map's order. A header whose value does not decode is not listed.
    pub fn names(&self) -> (names: Vec<&'a str>)
        ensures
            texts(names@) == readable(header_names(*self.0), header_text(*self.0)),
            forall|i: int|
                0 <= i < names@.len() ==> header_under(
                    header_text(*self.0),
                    header_name(#[trigger] texts(names@)[i]),
                ).is_some(),
    {
        let all = names_of(self.0);
        let ghost listed = header_names(*self.0);
        let ghost entries = header_text(*self.0);
        let mut names: Vec<&'a str> = Vec::new();
        let mut i: usize = 0;
        proof {
            assert(listed.take(0) =~= Seq::<Seq<char>>::empty());
            assert(texts(names@) =~= readable(listed.take(0), entries));
        }
        while i < all.len()
            invariant
                0 <= i <= all.len(),
                texts(all@) == listed,
                entries == header_text(*self.0),
                texts(names@) == readable(listed.take(i as int), entries),
                forall|j: int|
                    0 <= j < names@.len() ==> header_under(
                        entries,
                        header_name(#[trigger] texts(names@)[j]),
                    ).is_some(),
            decreases all.len() - i,
        {
            let ghost before = names@;
            let name = all[i];
            proof {
                assert(listed.len() == all@.len());
                assert(listed[i as int] == all@[i as int]@);
                assert(listed.take(i + 1).drop_last() =~= listed.take(i as int));
                assert(listed.take(i + 1).last() == name@);
            }
            let found = header_at(self.0, name);
            if found.is_some() {
                names.push(name);
                proof {
                    assert(texts(names@) =~= texts(before).push(name@));
                    assert forall|j: int| 0 <= j < names@.len() implies header_under(
                        entries,
                        header_name(#[trigger] texts(names@)[j]),
                    ).is_some() by {
                        if j < before.len() {
                            assert(texts(names@)[j] == texts(before)[j]);
                        }
                    }
                }
            }
            i = i + 1;
        }
        proof {
            assert(listed.take(i as int) =~= listed);
        }
        names
    }
}

impl opentelemetry::propagation::Extractor for HeadersExtractor<'_> {
    /// The first value under `key` where it reads as text, as `lookup`
    /// finds it.
    fn get(&self, key: &str) -> (found: Option<&str>)
        ensures
            text(found) == header_under(header_text(*self.0), header_name(key@)),
    {
        self.lookup(key)
    }

    /// The names of the headers whose value decodes, as `names` lists them.
    fn keys(&self) -> (names: Vec<&str>)
        ensures
            texts(names@) == readable(header_names(*self.0), header_text(*self.0)),
            forall|i: int|
                0 <= i < names@.len() ==> header_under(
                    header_text(*self.0),
                    header_name(#[trigger] texts(names@)[i]),
                ).is_some(),
    {
        self.names()
    }
}

/// Calls `opentelemetry::global::get_text_map_propagator` and, on the
/// propagator it yields, `extract_with_context` with an empty context and the
/// headers as carrier, so that nothing ambient comes back where the headers
/// hold no context. Which propagator is installed is process state, so
/// nothing is claimed of the context that comes back.
#[verifier::external_body]
fn extract_context(carrier: &HeadersExtractor<'_>) -> (ctx: opentelemetry::Context) {
    opentelemetry::global::get_text_map_propagator(
        |p| p.extract_with_context(&opentelemetry::Context::new(), carrier),
    )
}

/// The server-side layer around a service: extracts the context of every
/// incoming call before the service handles it.
#[derive(Clone)]
pub struct TraceExtractor<Svc>(pub Svc);

impl<Svc> TraceExtractor<Svc> {
    pub fn new(inner: Svc) -> (layered: TraceExtractor<Svc>)
        ensures
            layered.0 == inner,
    {
        TraceExtractor(inner)
    }

    /// The context that the headers of an incoming call carry, as the
    /// installed propagator reads it.
    pub fn context_of(&self, headers: &http::HeaderMap) -> (ctx: opentelemetry::Context) {
        extract_context(&HeadersExtractor(headers))
    }
}

/// The text after a run of offers is the text before it with each stored
/// pair written in turn.
pub proof fn lemma_run_writes_the_stored_pairs(
    states: Seq<tonic::metadata::MetadataMap>,
    fields: Seq<(Seq<char>, Seq<char>)>,
    stored: Seq<bool>,
)
    requires
        offers_run(states, fields, stored),
    ensures
        metadata_text(states.last()) == entries_after(metadata_text(states[0]), fields, stored),
    decreases fields.len(),
{
    if fields.len() > 0 {
        let last = fields.len() - 1;
        let earlier = states.drop_last();
        let rest = fields.drop_last();
        let flags = stored.drop_last();
        assert forall|i: int| 0 <= i < rest.len() implies (#[trigger] flags[i]) == offer_taken(
            earlier[i],
            rest[i].0,
            rest[i].1,
        ) && metadata_text(earlier[i + 1]) == text_after_offer(earlier[i], rest[i].0, rest[i].1)
            && (valid_pair(rest[i].0, rest[i].1) && metadata_names(earlier[i]) <= room()
            ==> flags[i]) && metadata_names(earlier[i + 1]) <= metadata_names(earlier[i]) + 1 by {
            assert(flags[i] == stored[i]);
            assert(rest[i] == fields[i]);
            assert(earlier[i] == states[i]);
            assert(earlier[i + 1] == states[i + 1]);
        }
        lemma_run_writes_the_stored_pairs(earlier, rest, flags);
        assert(earlier.last() == states[last]);
        assert(earlier[0] == states[0]);
        assert(states.last() == states[last + 1]);
        assert(stored.last() == stored[last]);
        assert(fields.last() == fields[last]);
    }
}

/// A run of offers adds at most one name with each offer.
pub proof fn lemma_run_adds_a_name_at_most(
    states: Seq<tonic::metadata::MetadataMap>,
    fields: Seq<(Seq<char>, Seq<char>)>,
    stored: Seq<bool>,
    upto: int,
)
    requires
        offers_run(states, fields, stored),
        0 <= upto <= fields.len(),
    ensures
        metadata_names(states[upto]) <= metadata_names(states[0]) + upto,
    decreases upto,
{
    if upto > 0 {
        lemma_run_adds_a_name_at_most(states, fields, stored, upto - 1);
        assert(stored[upto - 1] == offer_taken(
            states[upto - 1],
            fields[upto - 1].0,
            fields[upto - 1].1,
        ));
    }
}

/// A map with room for the whole run stores every valid pair of it and drops
/// every other.
pub proof fn lemma_map_with_room_stores_every_valid_pair(
    states: Seq<tonic::metadata::MetadataMap>,
    fields: Seq<(Seq<char>, Seq<char>)>,
    stored: Seq<bool>,
)
    requires
        offers_run(states, fields, stored),
        metadata_names(states[0]) + fields.len() <= room() + 1,
    ensures
        forall|i: int|
            0 <= i < fields.len() ==> (#[trigger] stored[i]) == valid_pair(fields[i].0, fields[i].1),
{
    assert forall|i: int| 0 <= i < fields.len() implies (#[trigger] stored[i]) == valid_pair(
        fields[i].0,
        fields[i].1,
    ) by {
        lemma_run_adds_a_name_at_most(states, fields, stored, i);
        assert(stored[i] == offer_taken(states[i], fields[i].0, fields[i].1));
    }
}

/// A valid pair offered to a map with room is there afterwards, whatever
/// pairs are dropped after it, as long as no later pair is stored under its
/// name.
pub proof fn lemma_valid_pair_stays_in_a_map_with_room(
    states: Seq<tonic::metadata::MetadataMap>,
    fields: Seq<(Seq<char>, Seq<char>)>,
    stored: Seq<bool>,
    i: int,
)
    requires
        offers_run(states, fields, stored),
        metadata_names(states[0]) + fields.len() <= room() + 1,
        0 <= i < fields.len(),
        valid_pair(fields[i].0, fields[i].1),
        forall|j: int|
            i < j < fields.len() && stored[j] ==> metadata_key((#[trigger] fields[j]).0)
                != metadata_key(fields[i].0),
    ensures
        stored[i],
        metadata_text(states.last()).contains_key(metadata_key(fields[i].0).unwrap()),
        metadata_text(states.last())[metadata_key(fields[i].0).unwrap()] == fields[i].1,
{
    lemma_map_with_room_stores_every_valid_pair(states, fields, stored);
    lemma_run_writes_the_stored_pairs(states, fields, stored);
    lemma_stored_pair_is_read(metadata_text(states[0]), fields, stored, i);
}

/// A value is printable ASCII where the parser takes it and it is ASCII.
pub proof fn lemma_visible_is_accepted_ascii(value: Seq<char>)
    ensures
        visible_value(value) <==> accepted_value(value) && vstd::utf8::is_ascii_chars(value),
{
    if visible_value(value) {
        assert forall|i: int| 0 <= i < value.len() implies accepted(#[trigger] value[i]) by {
            assert(visible(value[i]));
        }
        assert forall|i: int| 0 <= i < value.len() implies '\0' <= #[trigger] value[i]
            <= '\u{7f}' by {
            assert(visible(value[i]));
        }
    }
    if accepted_value(value) && vstd::utf8::is_ascii_chars(value) {
        assert forall|i: int| 0 <= i < value.len() implies visible(#[trigger] value[i]) by {
            assert(accepted(value[i]));
            assert('\0' <= value[i] <= '\u{7f}');
        }
    }
}

/// A key that holds a character that no header name may hold is no metadata
/// key, so a pair with such a key is dropped whatever its value.
pub proof fn lemma_key_with_a_foreign_character_is_refused(key: Seq<char>, at: int, value: Seq<char>)
    requires
        0 <= at < key.len(),
        !is_token(key[at]),
    ensures
        header_name(key).is_none(),
        metadata_key(key).is_none(),
        !valid_pair(key, value),
{
}

/// A pair that was stored under a name reads back as it was written, whatever
/// was dropped around it, as long as no later pair was stored under that name.
pub proof fn lemma_stored_pair_is_read(
    entries: Map<Seq<char>, Seq<char>>,
    fields: Seq<(Seq<char>, Seq<char>)>,
    stored: Seq<bool>,
    i: int,
)
    requires
        stored.len() == fields.len(),
        0 <= i < fields.len(),
        stored[i],
        metadata_key(fields[i].0).is_some(),
        forall|j: int|
            i < j < fields.len() && stored[j] ==> metadata_key((#[trigger] fields[j]).0)
                != metadata_key(fields[i].0),
    ensures
        entries_after(entries, fields, stored).contains_key(metadata_key(fields[i].0).unwrap()),
        entries_after(entries, fields, stored)[metadata_key(fields[i].0).unwrap()] == fields[i].1,
    decreases fields.len(),
{
    if i < fields.len() - 1 {
        let rest = fields.drop_last();
        let flags = stored.drop_last();
        assert(rest[i] == fields[i]);
        assert(flags[i] == stored[i]);
        assert forall|j: int| i < j < rest.len() && flags[j] implies metadata_key(
            (#[trigger] rest[j]).0,
        ) != metadata_key(rest[i].0) by {
            assert(rest[j] == fields[j]);
            assert(flags[j] == stored[j]);
        }
        lemma_stored_pair_is_read(entries, rest, flags, i);
        assert(fields.last() == fields[fields.len() - 1]);
        assert(stored.last() == stored[fields.len() - 1]);
    }
}

/// A second write under a name replaces the first, and writing the same
/// value again changes nothing.
pub proof fn lemma_second_write_replaces(
    entries: Map<Seq<char>, Seq<char>>,
    name: Seq<char>,
    first: Seq<char>,
    second: Seq<char>,
)
    ensures
        entries.insert(name, first).insert(name, second) == entries.insert(name, second),
        entries.insert(name, second).insert(name, second) == entries.insert(name, second),
{
    assert(entries.insert(name, first).insert(name, second) =~= entries.insert(name, second));
    assert(entries.insert(name, second).insert(name, second) =~= entries.insert(name, second));
}

/// The lower-case form of a character of header names is such a character,
/// and is its own lower-case form.
pub proof fn lemma_lower_is_a_token(c: char)
    requires
        is_token(c),
    ensures
        is_token(lower(c)),
        lower(lower(c)) == lower(c),
{
}

/// What is written to metadata under a key is found in headers that hold the
/// same entries, under the key as it was written and under its stored name.
pub proof fn lemma_stored_pair_is_found_in_headers(
    entries: Map<Seq<char>, Seq<char>>,
    key: Seq<char>,
    value: Seq<char>,
)
    requires
        metadata_key(key).is_some(),
    ensures
        header_name(key) == metadata_key(key),
        header_name(metadata_key(key).unwrap()) == metadata_key(key),
        header_under(entries.insert(metadata_key(key).unwrap(), value), header_name(key)) == Some(
            value,
        ),
        header_under(
            entries.insert(metadata_key(key).unwrap(), value),
            header_name(metadata_key(key).unwrap()),
        ) == Some(value),
{
    let name = metadata_key(key).unwrap();
    assert(name == Seq::new(key.len(), |i: int| lower(key[i])));
    assert forall|i: int| 0 <= i < name.len() implies is_token(#[trigger] name[i]) by {
        lemma_lower_is_a_token(key[i]);
    }
    let again = Seq::new(name.len(), |i: int| lower(name[i]));
    assert forall|i: int| 0 <= i < name.len() implies again[i] == name[i] by {
        lemma_lower_is_a_token(key[i]);
    }
    assert(again =~= name);
}

/// Pairs that are dropped leave no trace: where none of a run was stored, the
/// metadata reads as before.
pub proof fn lemma_dropped_pairs_change_nothing(
    entries: Map<Seq<char>, Seq<char>>,
    fields: Seq<(Seq<char>, Seq<char>)>,
    stored: Seq<bool>,
)
    requires
        forall|j: int| 0 <= j < stored.len() ==> !#[trigger] stored[j],
    ensures
        entries_after(entries, fields, stored) == entries,
    decreases fields.len(),
{
    if fields.len() > 0 && stored.len() == fields.len() {
        let flags = stored.drop_last();
        assert forall|j: int| 0 <= j < flags.len() implies !#[trigger] flags[j] by {
            assert(flags[j] == stored[j]);
        }
        lemma_dropped_pairs_change_nothing(entries, fields.drop_last(), flags);
        assert(stored.last() == stored[stored.len() - 1]);
    }
}

/// A dropped pair at the end of a run changes nothing of what the run wrote.
pub proof fn lemma_dropped_pair_keeps_the_rest(
    entries: Map<Seq<char>, Seq<char>>,
    fields: Seq<(Seq<char>, Seq<char>)>,
    stored: Seq<bool>,
    dropped: (Seq<char>, Seq<char>),
)
    requires
        stored.len() == fields.len(),
    ensures
        entries_after(entries, fields.push(dropped), stored.push(false)) == entries_after(
            entries,
            fields,
            stored,
        ),
{
    assert(fields.push(dropped).drop_last() =~= fields);
    assert(stored.push(false).drop_last() =~= stored);
    assert(!stored.push(false).last());
}

} // verus!
