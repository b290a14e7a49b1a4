//! The route table: registration of patterns and lookup of request paths.
use crate::key::{
    build_probe_key, encode, encode_pattern, is_param_segment, lemma_marked_key_ends,
    lemma_marker_index, lemma_remainder, marker_index, probe_key, segments, slash, star,
    PARAM_MARKER, SLASH, WILDCARD_MARKER,
};
use crate::string_map::{bindings_of, StringMap};
use crate::text::{
    has_byte, index_of, join, join_strs, lemma_encoding_bytes, lemma_index_of,
    lemma_index_of_unique, same_bytes, split_str, views,
};
use vstd::prelude::*;
use vstd::string::*;
use vstd::utf8::*;

verus! {

/// What a route table holds under one key.
pub enum Route<T: Clone> {
    /// A handler, returned as it is on a match.
    Handler(T),
    /// A nested table for what follows a parameter segment. The segment that
    /// matched is bound to `param_name`.
    SubRoutes { param_name: String, store: Box<RouteStore<T>> },
    /// A handler that matches a segment and all that follow it.
    Wildcard(T),
}

/// The mathematical model of a `Route`.
pub enum RouteView<T> {
    Handler(T),
    SubRoutes { param_name: Seq<char>, table: Map<Seq<u8>, RouteView<T>> },
    Wildcard(T),
}

struct Entry<T: Clone> {
    key: Vec<u8>,
    route: Route<T>,
}

/// A route table: an exact-match store from routing keys to routes, kept as
/// a list of entries in which the first entry of a key counts. Tables nest:
/// the table for what follows a parameter segment is owned by the entry of
/// that parameter.
pub struct RouteStore<T: Clone> {
    entries: Vec<Entry<T>>,
}

/// The model of a route: the handler itself, or the model of the nested
/// table.
pub open spec fn route_view<T: Clone>(route: Route<T>) -> RouteView<T>
    decreases route,
{
    match route {
        Route::Handler(handler) => RouteView::Handler(handler),
        Route::Wildcard(handler) => RouteView::Wildcard(handler),
        Route::SubRoutes { param_name, store } => RouteView::SubRoutes {
            param_name: param_name@,
            table: table_view(*store),
        },
    }
}

/// The model of a table: the map from each stored key to the model of the
/// route under it.
pub closed spec fn table_view<T: Clone>(store: RouteStore<T>) -> Map<Seq<u8>, RouteView<T>>
    decreases store,
{
    Map::new(
        |key: Seq<u8>| store.keys().contains(key),
        |key: Seq<u8>|
            {
                let i = index_of(store.keys(), key);
                if 0 <= i < store.entries.len() {
                    route_view(store.entries@[i].route)
                } else {
                    arbitrary()
                }
            },
    )
}

impl<T: Clone> View for Route<T> {
    type V = RouteView<T>;

    open spec fn view(&self) -> RouteView<T> {
        route_view(*self)
    }
}

impl<T: Clone> View for RouteStore<T> {
    type V = Map<Seq<u8>, RouteView<T>>;

    open spec fn view(&self) -> Map<Seq<u8>, RouteView<T>> {
        table_view(*self)
    }
}

/// The model of a route table.
pub type TableView<T> = Map<Seq<u8>, RouteView<T>>;

/// The invariant of a route table: it has finitely many entries, a nested
/// table stands only under a key that holds the parameter marker, and the
/// nested tables are well formed too.
pub open spec fn well_formed<T>(table: TableView<T>) -> bool
    decreases table,
{
    &&& table.dom().finite()
    &&& forall|key: Seq<u8>| #[trigger]
        table.contains_key(key) ==> match table[key] {
            RouteView::SubRoutes { table: nested, .. } => key.contains(PARAM_MARKER)
                && well_formed(nested),
            _ => true,
        }
}

/// The table after `route` was registered under `pattern`.
///
/// A wildcard pattern stores the handler of `route` as a wildcard entry, and
/// nothing where `route` is no handler. A pattern with a parameter registers
/// `route` under the remainder in the nested table of that parameter: the
/// one that is there, which keeps its name, or else a new one, which takes
/// the place of a handler or wildcard entry. A static pattern stores `route`
/// as it is.
pub open spec fn insert_route<T>(
    table: TableView<T>,
    pattern: Seq<char>,
    route: RouteView<T>,
) -> TableView<T>
    decreases pattern.len(), (if is_param_segment(pattern) { 1nat } else { 0nat }),
{
    let encoded = encode_pattern(pattern);
    if encoded.is_wildcard {
        match route {
            RouteView::Handler(handler) => table.insert(encoded.key, RouteView::Wildcard(handler)),
            _ => table,
        }
    } else if encoded.remainder.len() > 0 {
        proof {
            lemma_remainder(pattern);
        }
        let (name, nested) = match table.get(encoded.key) {
            Some(RouteView::SubRoutes { param_name, table: nested }) => (param_name, nested),
            _ => (encoded.param_name.unwrap(), Map::empty()),
        };
        table.insert(
            encoded.key,
            RouteView::SubRoutes {
                param_name: name,
                table: insert_route(nested, encoded.remainder, route),
            },
        )
    } else {
        table.insert(encoded.key, route)
    }
}

/// Registering a handler or a wildcard keeps a table well formed.
pub proof fn lemma_insert_well_formed<T>(
    table: TableView<T>,
    pattern: Seq<char>,
    route: RouteView<T>,
)
    requires
        well_formed(table),
        !(route is SubRoutes),
    ensures
        well_formed(insert_route(table, pattern, route)),
    decreases pattern.len(), (if is_param_segment(pattern) { 1nat } else { 0nat }),
{
    let encoded = encode_pattern(pattern);
    let after = insert_route(table, pattern, route);
    if !encoded.is_wildcard {
        if encoded.remainder.len() > 0 {
            lemma_remainder(pattern);
            lemma_marker_index(segments(pattern));
            lemma_marked_key_ends(
                segments(pattern).take(marker_index(segments(pattern))),
                PARAM_MARKER,
            );
            let nested = match table.get(encoded.key) {
                Some(RouteView::SubRoutes { table: nested, .. }) => nested,
                _ => Map::empty(),
            };
            assert(well_formed(nested)) by {
                if table.contains_key(encoded.key) {
                    assert(table.contains_key(encoded.key));
                }
            }
            lemma_insert_well_formed(nested, encoded.remainder, route);
        }
        assert forall|key: Seq<u8>| #[trigger] after.contains_key(key) implies match after[key] {
            RouteView::SubRoutes { table: nested, .. } => key.contains(PARAM_MARKER)
                && well_formed(nested),
            _ => true,
        } by {
            if key != encoded.key {
                assert(table.contains_key(key));
            }
        }
    }
}

impl<T: Clone> Route<T> {
    /// A route to `handler`.
    pub fn new(handler: T) -> (route: Self)
        ensures
            route == Route::Handler(handler),
    {
        Route::Handler(handler)
    }

    /// A route into the nested table `store`, which binds the segment it
    /// stands for to `param_name`.
    pub fn sub_routes(param_name: String, store: RouteStore<T>) -> (route: Self)
        ensures
            route == (Route::SubRoutes { param_name, store: Box::new(store) }),
    {
        Route::SubRoutes { param_name, store: Box::new(store) }
    }
}

impl<T: Clone> RouteStore<T> {
    /// The keys of the entries, in the order in which they are stored.
    closed spec fn keys(&self) -> Seq<Seq<u8>> {
        self.entries@.map_values(|entry: Entry<T>| entry.key@)
    }

    /// Whether `route` is one of the routes that this table owns.
    pub closed spec fn owns(&self, route: &Route<T>) -> bool {
        exists|i: int| 0 <= i < self.entries.len() && self.entries@[i].route == *route
    }

    /// An empty table.
    pub fn new() -> (store: Self)
        ensures
            store@ == Map::<Seq<u8>, RouteView<T>>::empty(),
    {
        let store = RouteStore { entries: Vec::new() };
        proof {
            assert(store.keys() =~= Seq::<Seq<u8>>::empty());
            assert(store@ =~= Map::<Seq<u8>, RouteView<T>>::empty());
        }
        store
    }

    /// The position of the entry with the key `key`.
    fn position(&self, key: &[u8]) -> (at: Option<usize>)
        ensures
            match at {
                Some(i) => i < self.entries.len() && i == index_of(self.keys(), key@),
                None => index_of(self.keys(), key@) == self.entries.len(),
            },
    {
        let mut i: usize = 0;
        proof {
            lemma_index_of(self.keys(), key@);
        }
        while i < self.entries.len()
            invariant
                i <= self.entries.len(),
                forall|j: int| 0 <= j < i ==> self.keys()[j] != key@,
            decreases self.entries.len() - i,
        {
            if same_bytes(self.entries[i].key.as_slice(), key) {
                proof {
                    lemma_index_of_unique(self.keys(), key@, i as int);
                }
                return Some(i);
            }
            i += 1;
        }
        proof {
            lemma_index_of_unique(self.keys(), key@, i as int);
        }
        None
    }

    /// What the table holds under exactly `key`.
    pub fn entry(&self, key: &[u8]) -> (found: Option<&Route<T>>)
        ensures
            match found {
                Some(route) => self@.contains_key(key@) && self@[key@] == route@ && self.owns(
                    route,
                ),
                None => !self@.contains_key(key@),
            },
    {
        proof {
            lemma_index_of(self.keys(), key@);
        }
        match self.position(key) {
            Some(i) => Some(&self.entries[i].route),
            None => None,
        }
    }

    /// A table in which the first entry of a key got a new route holds that
    /// route under the key, and is as before under every other key.
    proof fn lemma_replaced(before: Self, after: Self, at: int, key: Seq<u8>, route: Route<T>)
        requires
            0 <= at < before.entries.len(),
            at == index_of(before.keys(), key),
            after.entries.len() == before.entries.len(),
            after.entries@[at].key@ == key,
            after.entries@[at].route == route,
            forall|j: int|
                0 <= j < before.entries.len() && j != at ==> after.entries@[j]
                    == before.entries@[j],
        ensures
            after@ == before@.insert(key, route@),
    {
        let keys = before.keys();
        let target = before@.insert(key, route@);
        lemma_index_of(keys, key);
        assert(after.keys() =~= keys);
        assert(keys.contains(key));
        assert forall|k: Seq<u8>| #[trigger] after@.contains_key(k) == target.contains_key(k) by {}
        assert forall|k: Seq<u8>| #[trigger] target.contains_key(k) implies after@[k]
            == target[k] by {
            lemma_index_of(keys, k);
        }
        assert(after@ =~= target);
    }

    /// Stores `route` under `key`, in place of what was there.
    fn put(&mut self, key: Vec<u8>, route: Route<T>)
        ensures
            final(self)@ == old(self)@.insert(key@, route@),
    {
        let ghost before = self.keys();
        let ghost target = old(self)@.insert(key@, route@);
        match self.position(key.as_slice()) {
            Some(i) => {
                self.entries.set(i, Entry { key, route });
                proof {
                    Self::lemma_replaced(*old(self), *self, i as int, key@, route);
                }
            },
            None => {
                self.entries.push(Entry { key, route });
                proof {
                    let n = before.len() as int;
                    assert(self.keys() =~= before.push(key@));
                    lemma_index_of(before, key@);
                    assert forall|k: Seq<u8>| #[trigger]
                        self.keys().contains(k) == target.contains_key(k) by {
                        if before.contains(k) {
                            let j = choose|j: int| 0 <= j < n && before[j] == k;
                            assert(self.keys()[j] == k);
                        }
                        if k == key@ {
                            assert(self.keys()[n] == k);
                        }
                    }
                    assert forall|k: Seq<u8>| #[trigger] target.contains_key(k) implies self@[k]
                        == target[k] by {
                        lemma_index_of(before, k);
                        if before.contains(k) {
                            let j = index_of(before, k);
                            assert forall|m: int| 0 <= m < j implies self.keys()[m] != k by {
                                assert(self.keys()[m] == before[m]);
                            }
                            assert(self.keys()[j] == before[j]);
                            lemma_index_of_unique(self.keys(), k, j);
                        } else {
                            assert forall|m: int| 0 <= m < n implies self.keys()[m] != k by {
                                assert(self.keys()[m] == before[m]);
                            }
                            lemma_index_of_unique(self.keys(), k, n);
                        }
                    }
                    assert(self@ =~= target);
                }
            },
        }
    }

    /// Encodes a pattern: the key, the name of the capture, the remainder
    /// for the nested table, and whether the pattern ends in the wildcard.
    pub fn path_to_key(path: &str) -> (r: (Vec<u8>, Option<String>, String, bool))
        ensures
            r.0@ == encode_pattern(path@).key,
            match (r.1, encode_pattern(path@).param_name) {
                (Some(name), Some(spec_name)) => name@ == spec_name,
                (None, None) => true,
                _ => false,
            },
            r.2@ == encode_pattern(path@).remainder,
            r.3 == encode_pattern(path@).is_wildcard,
    {
        encode(path)
    }

    /// Whether the table is well formed. A table that was filled with
    /// handlers alone always is.
    pub fn is_well_formed(&self) -> (ok: bool)
        ensures
            ok == well_formed(self@),
        decreases self,
    {
        let ghost keys = self.keys();
        proof {
            vstd::seq_lib::seq_to_set_is_finite(keys);
            assert(self@.dom() =~= keys.to_set());
        }
        let mut i: usize = 0;
        while i < self.entries.len()
            invariant
                i <= self.entries.len(),
                keys == self.keys(),
                self@.dom().finite(),
                forall|j: int|
                    0 <= j < i && index_of(keys, #[trigger] keys[j]) == j ==> match self@[keys[j]] {
                        RouteView::SubRoutes { table: nested, .. } => keys[j].contains(
                            PARAM_MARKER,
                        ) && well_formed(nested),
                        _ => true,
                    },
            decreases self.entries.len() - i,
        {
            let entry = &self.entries[i];
            proof {
                lemma_index_of(keys, keys[i as int]);
                assert(entry.key@ == keys[i as int]);
            }
            match &entry.route {
                Route::SubRoutes { store, .. } => {
                    let first = match self.position(entry.key.as_slice()) {
                        Some(at) => at == i,
                        None => false,
                    };
                    if first {
                        if !has_byte(entry.key.as_slice(), PARAM_MARKER) || !store.is_well_formed() {
                            proof {
                                assert(self@.contains_key(keys[i as int]));
                            }
                            return false;
                        }
                    }
                },
                _ => {},
            }
            i += 1;
        }
        proof {
            assert forall|key: Seq<u8>| #[trigger] self@.contains_key(key) implies match self@[key] {
                RouteView::SubRoutes { table: nested, .. } => key.contains(PARAM_MARKER)
                    && well_formed(nested),
                _ => true,
            } by {
                lemma_index_of(keys, key);
                let j = index_of(keys, key);
                assert(keys[j] == key);
            }
        }
        true
    }

    /// The handler that `path` resolves to, if a route matches.
    pub fn get(&self, path: &str) -> (found: Option<T>)
        requires
            well_formed(self@),
        ensures
            match resolve(self@, path@, Map::empty()) {
                Some((handler, _)) => found is Some && cloned(handler, found->0),
                None => found is None,
            },
    {
        let mut params: Vec<(String, String)> = Vec::new();
        match find_route_recursive(self, path, &mut params) {
            Some(handler) => Some(handler.clone()),
            None => None,
        }
    }

    /// The handler that `path` resolves to, if a route matches, and the text
    /// that the parameters and the wildcard of that route captured. Without
    /// a match there are no bindings.
    pub fn get_with_params(&self, path: &str) -> (found: (Option<T>, StringMap))
        requires
            well_formed(self@),
        ensures
            is_lookup(self@, path@, found.0, found.1@),
    {
        let mut params: Vec<(String, String)> = Vec::new();
        match find_route_recursive(self, path, &mut params) {
            Some(handler) => (Some(handler.clone()), StringMap::from_pairs(params)),
            None => (None, StringMap::new()),
        }
    }

    /// Registers `route` under the pattern `path`.
    pub fn insert(&mut self, path: &str, route: Route<T>)
        ensures
            final(self)@ == insert_route(old(self)@, path@, route@),
            well_formed(old(self)@) && !(route is SubRoutes) ==> well_formed(final(self)@),
        decreases path@.len(), (if is_param_segment(path@) { 1nat } else { 0nat }),
    {
        proof {
            if well_formed(old(self)@) && !(route is SubRoutes) {
                lemma_insert_well_formed(old(self)@, path@, route@);
            }
        }
        let (key, param_name, remainder, is_wildcard) = encode(path);
        if is_wildcard {
            match route {
                Route::Handler(handler) => {
                    self.put(key, Route::Wildcard(handler));
                },
                _ => {},
            }
            return ;
        }
        if remainder.as_str().is_empty() {
            self.put(key, route);
            return ;
        }
        proof {
            lemma_remainder(path@);
        }
        let name = param_name.unwrap();
        match self.position(key.as_slice()) {
            Some(i) => {
                proof {
                    lemma_index_of(self.keys(), key@);
                }
                let entry = self.entries.remove(i);
                let nested = match entry.route {
                    Route::SubRoutes { param_name, store } => {
                        let mut store = store;
                        store.insert(remainder.as_str(), route);
                        Route::SubRoutes { param_name, store }
                    },
                    _ => {
                        let mut store = RouteStore::new();
                        store.insert(remainder.as_str(), route);
                        Route::sub_routes(name, store)
                    },
                };
                self.entries.insert(i, Entry { key, route: nested });
                proof {
                    Self::lemma_replaced(*old(self), *self, i as int, key@, nested);
                }
            },
            None => {
                proof {
                    lemma_index_of(self.keys(), key@);
                }
                let mut store = RouteStore::new();
                store.insert(remainder.as_str(), route);
                self.put(key, Route::sub_routes(name, store));
            },
        }
    }
}

impl<T: Clone> Default for RouteStore<T> {
    fn default() -> (store: Self)
        ensures
            store@ == Map::<Seq<u8>, RouteView<T>>::empty(),
    {
        RouteStore::new()
    }
}

/// The bindings of parameter names to the text that they captured.
pub type Bindings = Map<Seq<char>, Seq<char>>;

/// The path that is left behind segment `idx`: the segments that follow it,
/// each preceded by `/`, and `/` alone where none follows.
pub open spec fn remaining_path(segs: Seq<Seq<char>>, idx: int) -> Seq<char> {
    seq!['/'] + join(segs.skip(idx + 1), '/')
}

/// What a wildcard at segment `idx` captures: that segment and all that
/// follow it, joined by `/`.
pub open spec fn wildcard_capture(segs: Seq<Seq<char>>, idx: int) -> Seq<char> {
    join(segs.skip(idx), '/')
}

/// The handler that `path` resolves to in `table`, with the bindings made on
/// the way added to `bindings`; `None` where no route matches.
///
/// An entry under the literal bytes of the path wins. Otherwise the segments
/// are tried as capture points from the last to the first.
pub open spec fn resolve<T>(table: TableView<T>, path: Seq<char>, bindings: Bindings) -> Option<
    (T, Bindings),
>
    decreases table, segments(path).len() + 1,
    when well_formed(table)
{
    match table.get(encode_utf8(path)) {
        Some(RouteView::Handler(handler)) => Some((handler, bindings)),
        Some(RouteView::Wildcard(handler)) => Some((handler, bindings)),
        _ => scan(table, segments(path), segments(path).len() - 1, bindings),
    }
}

/// The first match among the capture points `idx`, `idx - 1`, down to `0`.
///
/// At each capture point the entry under the parameter key is tried first: a
/// handler matches as it is, and a nested table matches where it resolves
/// the path that is left, with the segment bound to the name of the
/// parameter. Then a wildcard entry under the wildcard key matches, and
/// binds `*` to the segment and all that follow.
pub open spec fn scan<T>(
    table: TableView<T>,
    segs: Seq<Seq<char>>,
    idx: int,
    bindings: Bindings,
) -> Option<(T, Bindings)>
    decreases table, idx + 1,
    when well_formed(table)
{
    if idx < 0 || idx >= segs.len() {
        None
    } else {
        let captured = bindings.insert(seq!['*'], wildcard_capture(segs, idx));
        let by_param = match table.get(probe_key(segs, idx, PARAM_MARKER)) {
            Some(RouteView::Handler(handler)) => Some((handler, bindings)),
            Some(RouteView::Wildcard(handler)) => Some((handler, captured)),
            Some(RouteView::SubRoutes { param_name, table: nested }) => resolve(
                nested,
                remaining_path(segs, idx),
                bindings.insert(param_name, segs[idx]),
            ),
            None => None,
        };
        if by_param is Some {
            by_param
        } else {
            match table.get(probe_key(segs, idx, WILDCARD_MARKER)) {
                Some(RouteView::Wildcard(handler)) => Some((handler, captured)),
                _ => scan(table, segs, idx - 1, bindings),
            }
        }
    }
}

/// Whether `handler` and `bindings` are what a lookup of `path` in `table`
/// gives: a clone of the handler that the path resolves to, with the
/// bindings made on the way; or no handler and no bindings where no route
/// matches.
pub open spec fn is_lookup<T: Clone>(
    table: TableView<T>,
    path: Seq<char>,
    handler: Option<T>,
    bindings: Bindings,
) -> bool {
    match resolve(table, path, Map::empty()) {
        Some((found, bound)) => handler is Some && cloned(found, handler->0) && bindings == bound,
        None => handler is None && bindings == Map::<Seq<char>, Seq<char>>::empty(),
    }
}

/// Looks `path` up in `store`. On a match the pairs that it binds are pushed
/// on `params`; without one `params` is left as it was.
pub fn find_route_recursive<'a, T: Clone>(
    store: &'a RouteStore<T>,
    path: &str,
    params: &mut Vec<(String, String)>,
) -> (found: Option<&'a T>)
    requires
        well_formed(store@),
    ensures
        match resolve(store@, path@, bindings_of(old(params)@)) {
            Some((handler, bindings)) => found == Some(&handler) && bindings_of(final(params)@)
                == bindings,
            None => found is None && final(params)@ == old(params)@,
        },
    decreases store,
{
    let ghost table = store@;
    let ghost bindings = bindings_of(params@);
    match store.entry(path.as_bytes()) {
        Some(Route::Handler(handler)) => {
            return Some(handler);
        },
        Some(Route::Wildcard(handler)) => {
            return Some(handler);
        },
        Some(Route::SubRoutes { .. }) => {
            proof {
                lemma_encoding_bytes(path@);
                assert(table.contains_key(encode_utf8(path@)));
                assert(false);
            }
            return None;
        },
        None => {},
    }
    let segs = split_str(path, SLASH);
    let ghost all = views(segs@);
    let mut idx: usize = segs.len();
    while idx > 0
        invariant
            idx <= segs.len(),
            well_formed(table),
            table == store@,
            all == views(segs@),
            params@ == old(params)@,
            bindings == bindings_of(params@),
            resolve(table, path@, bindings) == scan(table, all, idx - 1, bindings),
        decreases idx,
    {
        idx -= 1;
        let param_key = build_probe_key(&segs, idx, PARAM_MARKER);
        match store.entry(param_key.as_slice()) {
            Some(Route::Handler(handler)) => {
                return Some(handler);
            },
            Some(Route::Wildcard(handler)) => {
                let capture = join_strs(&segs, idx, slash());
                params.push((star().to_owned(), capture));
                proof {
                    assert(params@.drop_last() =~= old(params)@);
                }
                return Some(handler);
            },
            Some(Route::SubRoutes { param_name, store: nested }) => {
                let depth = params.len();
                let mut rest = slash().to_owned();
                let tail = join_strs(&segs, idx + 1, slash());
                rest.append(tail.as_str());
                params.push((param_name.clone(), segs[idx].to_owned()));
                proof {
                    assert(params@.drop_last() =~= old(params)@);
                    assert(table.contains_key(param_key@));
                }
                let found = find_route_recursive(nested, rest.as_str(), params);
                if found.is_some() {
                    return found;
                }
                params.truncate(depth);
                proof {
                    assert(params@ =~= old(params)@);
                }
            },
            None => {},
        }
        let wildcard_key = build_probe_key(&segs, idx, WILDCARD_MARKER);
        match store.entry(wildcard_key.as_slice()) {
            Some(Route::Wildcard(handler)) => {
                let capture = join_strs(&segs, idx, slash());
                params.push((star().to_owned(), capture));
                proof {
                    assert(params@.drop_last() =~= old(params)@);
                }
                return Some(handler);
            },
            _ => {},
        }
    }
    None
}

} // verus!
