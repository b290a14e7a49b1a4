//! Laws of the route table, stated over its model.
use crate::key::{encode_pattern, is_static, lemma_static_pattern_key, trimmed};
use crate::store::{
    insert_route, is_lookup, lemma_insert_well_formed, resolve, well_formed, Bindings, RouteView,
    TableView,
};
use vstd::prelude::*;
use vstd::utf8::*;

verus! {

/// The table after a list of handlers was registered, each under its
/// pattern, from the first to the last.
pub open spec fn register_all<T>(table: TableView<T>, routes: Seq<(Seq<char>, T)>) -> TableView<T>
    decreases routes.len(),
{
    if routes.len() == 0 {
        table
    } else {
        insert_route(
            register_all(table, routes.drop_last()),
            routes.last().0,
            RouteView::Handler(routes.last().1),
        )
    }
}

/// Registering handlers keeps a table well formed.
pub proof fn law_register_all_well_formed<T>(table: TableView<T>, routes: Seq<(Seq<char>, T)>)
    requires
        well_formed(table),
    ensures
        well_formed(register_all(table, routes)),
    decreases routes.len(),
{
    if routes.len() > 0 {
        law_register_all_well_formed(table, routes.drop_last());
        lemma_insert_well_formed(
            register_all(table, routes.drop_last()),
            routes.last().0,
            RouteView::Handler(routes.last().1),
        );
    }
}

/// A registration changes nothing but the entry under the key of its
/// pattern.
pub proof fn law_insert_touches_one_key<T>(
    table: TableView<T>,
    pattern: Seq<char>,
    route: RouteView<T>,
    key: Seq<u8>,
)
    requires
        key != encode_pattern(pattern).key,
    ensures
        insert_route(table, pattern, route).get(key) == table.get(key),
{
}

/// A handler that was registered under a static pattern is what a lookup of
/// that pattern gives, with no binding added. This is so for each pattern
/// that is stored under its own text: one that is not empty and does not end
/// in `/`, or `/` itself.
pub proof fn law_static_route_resolves<T>(
    table: TableView<T>,
    pattern: Seq<char>,
    handler: T,
    bindings: Bindings,
)
    requires
        well_formed(table),
        is_static(pattern),
        trimmed(pattern) == pattern,
    ensures
        resolve(insert_route(table, pattern, RouteView::Handler(handler)), pattern, bindings)
            == Some((handler, bindings)),
{
    lemma_static_pattern_key(pattern);
    lemma_insert_well_formed(table, pattern, RouteView::Handler(handler));
}

/// Among the handlers registered from the first to the last, one under a
/// static pattern stands in the table under the key of that pattern, unless
/// a later registration went under the same key.
pub proof fn law_registered_static_route_stands<T>(
    table: TableView<T>,
    routes: Seq<(Seq<char>, T)>,
    i: int,
)
    requires
        0 <= i < routes.len(),
        is_static(routes[i].0),
        forall|j: int|
            i < j < routes.len() ==> encode_pattern(#[trigger] routes[j].0).key != encode_pattern(
                routes[i].0,
            ).key,
    ensures
        register_all(table, routes).get(encode_pattern(routes[i].0).key) == Some(
            RouteView::Handler(routes[i].1),
        ),
    decreases routes.len(),
{
    let front = routes.drop_last();
    let last = routes.last();
    let before = register_all(table, front);
    let pattern = routes[i].0;
    lemma_static_pattern_key(pattern);
    if i < routes.len() - 1 {
        assert(front[i] == routes[i]);
        assert forall|j: int| i < j < front.len() implies encode_pattern(
            #[trigger] front[j].0,
        ).key != encode_pattern(front[i].0).key by {
            assert(front[j] == routes[j]);
        }
        law_registered_static_route_stands(table, front, i);
        assert(encode_pattern(routes[routes.len() - 1].0).key != encode_pattern(pattern).key);
        law_insert_touches_one_key(
            before,
            last.0,
            RouteView::Handler(last.1),
            encode_pattern(pattern).key,
        );
    }
}

/// Among the handlers registered from the first to the last, one under a
/// static pattern that is stored under its own text is what a lookup of that
/// pattern gives, unless a later registration went under the same key.
pub proof fn law_registered_static_route_resolves<T>(
    table: TableView<T>,
    routes: Seq<(Seq<char>, T)>,
    i: int,
    bindings: Bindings,
)
    requires
        well_formed(table),
        0 <= i < routes.len(),
        is_static(routes[i].0),
        trimmed(routes[i].0) == routes[i].0,
        forall|j: int|
            i < j < routes.len() ==> encode_pattern(#[trigger] routes[j].0).key != encode_pattern(
                routes[i].0,
            ).key,
    ensures
        resolve(register_all(table, routes), routes[i].0, bindings) == Some(
            (routes[i].1, bindings),
        ),
{
    law_register_all_well_formed(table, routes);
    law_registered_static_route_stands(table, routes, i);
    lemma_static_pattern_key(routes[i].0);
}

/// Two static patterns have different keys where they differ in more than a
/// trailing `/`. The empty pattern counts as `/`.
pub proof fn law_static_keys_differ(first: Seq<char>, second: Seq<char>)
    requires
        is_static(first),
        is_static(second),
        trimmed(first) != trimmed(second),
    ensures
        encode_pattern(first).key != encode_pattern(second).key,
{
    lemma_static_pattern_key(first);
    lemma_static_pattern_key(second);
    encode_utf8_decode_utf8(trimmed(first));
    encode_utf8_decode_utf8(trimmed(second));
}

/// Two registrations under different keys give the same table in either
/// order.
pub proof fn law_inserts_commute<T>(
    table: TableView<T>,
    first: Seq<char>,
    first_route: RouteView<T>,
    second: Seq<char>,
    second_route: RouteView<T>,
)
    requires
        encode_pattern(first).key != encode_pattern(second).key,
    ensures
        insert_route(insert_route(table, first, first_route), second, second_route)
            == insert_route(insert_route(table, second, second_route), first, first_route),
{
    let one = insert_route(insert_route(table, first, first_route), second, second_route);
    let other = insert_route(insert_route(table, second, second_route), first, first_route);
    assert(one =~= other);
}

/// Registering two static patterns that differ in more than a trailing `/`
/// in either order gives the same table, and so the same result for the
/// lookup of any path.
pub proof fn law_static_inserts_commute<T>(
    table: TableView<T>,
    first: Seq<char>,
    first_route: RouteView<T>,
    second: Seq<char>,
    second_route: RouteView<T>,
    path: Seq<char>,
    bindings: Bindings,
)
    requires
        is_static(first),
        is_static(second),
        trimmed(first) != trimmed(second),
    ensures
        insert_route(insert_route(table, first, first_route), second, second_route)
            == insert_route(insert_route(table, second, second_route), first, first_route),
        resolve(
            insert_route(insert_route(table, first, first_route), second, second_route),
            path,
            bindings,
        ) == resolve(
            insert_route(insert_route(table, second, second_route), first, first_route),
            path,
            bindings,
        ),
{
    law_static_keys_differ(first, second);
    law_inserts_commute(table, first, first_route, second, second_route);
}

/// Two lookups of one path in one table agree: both find a route or
/// neither does, what they find are clones of one registered handler, and
/// the bindings are the same.
pub proof fn law_lookup_repeats<T: Clone>(
    table: TableView<T>,
    path: Seq<char>,
    first: (Option<T>, Bindings),
    second: (Option<T>, Bindings),
)
    requires
        is_lookup(table, path, first.0, first.1),
        is_lookup(table, path, second.0, second.1),
    ensures
        first.1 == second.1,
        first.0 is Some <==> second.0 is Some,
        first.0 is Some ==> exists|handler: T|
            #![trigger cloned(handler, first.0->0)]
            cloned(handler, first.0->0) && cloned(handler, second.0->0),
{
    if first.0 is Some {
        let found = resolve(table, path, Map::empty()).unwrap();
        let handler = found.0;
        assert(cloned(handler, first.0->0) && cloned(handler, second.0->0));
    }
}

/// An entry under the literal bytes of a path wins over every parameter and
/// wildcard route: the lookup gives its handler and binds nothing.
pub proof fn law_exact_entry_wins<T>(
    table: TableView<T>,
    path: Seq<char>,
    handler: T,
    bindings: Bindings,
)
    requires
        well_formed(table),
        table.get(encode_utf8(path)) == Some(RouteView::Handler(handler)),
    ensures
        resolve(table, path, bindings) == Some((handler, bindings)),
{
}

} // verus!
