//! What a target names.

use vstd::prelude::*;

use crate::error::{Fault, TransportError};
use crate::location::IbmMqTransport;
use crate::target::{
    first_at, pair, parts_of, place, resolve, resolved, split_once, Named, NamedView,
};
use crate::text::debug_text;

use super::replies::fails_as;

verus! {

/// The names between the slashes of a path: none in an empty path, a name
/// without a slash is itself, and a slash parts what stands before it from
/// what stands after. So every name is there, in order, and none is empty or
/// has a slash in it.
pub proof fn a_path_is_parted_at_its_slashes(before: Seq<char>, after: Seq<char>)
    ensures
        parts_of(Seq::empty()) == Seq::<Seq<char>>::empty(),
        before.len() > 0 && !before.contains('/') ==> parts_of(before) == seq![before],
        parts_of(before + seq!['/'] + after) == parts_of(before) + parts_of(after),
    decreases before.len(),
{
    let path = before + seq!['/'] + after;
    lemma_first(before);
    lemma_first(path);
    assert(path[before.len() as int] == '/');
    assert(path.contains('/'));
    let at = first_at(path, '/') as int;
    if !before.contains('/') {
        assert(at == before.len()) by {
            if at < before.len() {
                assert(before.contains(before[at]));
            }
        }
        assert(path.take(at) =~= before);
        assert(path.skip(at + 1) =~= after);
        if before.len() > 0 {
            assert(before.take(before.len() as int) =~= before);
            assert(parts_of(before) =~= seq![before]);
        } else {
            assert(parts_of(before) =~= Seq::<Seq<char>>::empty());
            assert(parts_of(before) + parts_of(after) =~= parts_of(after));
        }
        assert(parts_of(path) =~= parts_of(before) + parts_of(after));
    } else {
        let mid = first_at(before, '/') as int;
        assert(at == mid) by {
            assert(before[mid] == path[mid]);
            if at < mid {
                assert(before[at] == path[at]);
            }
        }
        let rest = before.skip(mid + 1);
        a_path_is_parted_at_its_slashes(rest, after);
        assert(path.skip(at + 1) =~= rest + seq!['/'] + after);
        assert(path.take(at) =~= before.take(mid));
        assert(parts_of(path) =~= parts_of(before) + parts_of(after));
    }
}

proof fn lemma_first(text: Seq<char>)
    ensures
        first_at(text, '/') <= text.len(),
        first_at(text, '/') < text.len() ==> text[first_at(text, '/') as int] == '/',
        forall|i: int| 0 <= i < first_at(text, '/') ==> #[trigger] text[i] != '/',
        text.contains('/') <==> first_at(text, '/') < text.len(),
    decreases text.len(),
{
    if text.len() > 0 && text[0] != '/' {
        let rest = text.drop_first();
        lemma_first(rest);
        assert forall|i: int| 0 <= i < first_at(text, '/') implies #[trigger] text[i] != '/' by {
            if i > 0 {
                assert(rest[i - 1] == text[i]);
            }
        }
        if text.contains('/') {
            let i = choose|i: int| 0 <= i < text.len() && text[i] == '/';
            assert(rest[i - 1] == '/');
        }
    } else if text.len() > 0 {
        assert(text.contains('/'));
    }
}

/// Whether `name` can stand between two slashes.
pub open spec fn is_name(name: Seq<char>) -> bool {
    name.len() > 0 && !name.contains('/')
}

/// How a target that names neither one nor two is refused.
pub open spec fn names_neither(target: Seq<char>) -> Fault {
    Fault {
        message: debug_text(target) + " is not <queue manager>/<queue> or <queue>"@,
        retryable: false,
    }
}

/// What a path names on `server`: the queue manager and queue where it has
/// two names, the queue on the given queue manager where it has one, and
/// nothing where it has none or more.
pub open spec fn named_on(
    queue_manager: Seq<char>,
    target: Seq<char>,
    server: Seq<char>,
    names: Seq<Seq<char>>,
) -> Result<(Seq<char>, Seq<char>, Seq<char>), Fault> {
    if names.len() == 1 {
        Ok((server, queue_manager, names[0]))
    } else if names.len() == 2 {
        Ok((server, names[0], names[1]))
    } else {
        Err(names_neither(target))
    }
}

/// Whether `result` gives these three, or fails so.
pub open spec fn gives(
    result: Result<(&str, &str, &str), TransportError>,
    expected: Result<(Seq<char>, Seq<char>, Seq<char>), Fault>,
) -> bool {
    match expected {
        Ok((server, queue_manager, queue)) => result matches Ok(given) && given.0@ == server
            && given.1@ == queue_manager && given.2@ == queue,
        Err(fault) => fails_as(result, fault),
    }
}

/// `place` goes by the names in its path, and stays on the server it is
/// given.
pub proof fn place_goes_by_the_names_in_the_path(
    queue_manager: &str,
    target: &str,
    server: &str,
    path: &str,
    result: Result<(&str, &str, &str), TransportError>,
)
    requires
        call_ensures(place, (queue_manager, target, server, path), result),
    ensures
        gives(result, named_on(queue_manager@, target@, server@, parts_of(path@))),
{
}

/// A target that names a server under a scheme, `ibm-mq` before `mq`, goes
/// to that server, whatever is configured: by one name to the configured
/// queue manager there, by two to the queue manager that it names.
pub proof fn a_named_server_is_gone_to(
    server: &str,
    queue_manager: &str,
    target: &str,
    named: Named<'_>,
    at: &str,
    path: &str,
    result: Result<(&str, &str, &str), TransportError>,
)
    requires
        call_ensures(resolve, (server, queue_manager, target, named), result),
        named.ibm_mq == Some((at, path)) || named.ibm_mq is None && named.mq == Some((at, path)),
    ensures
        gives(result, named_on(queue_manager@, target@, at@, parts_of(path@))),
        is_name(path@) ==> gives(result, Ok((at@, queue_manager@, path@))),
{
    a_path_is_parted_at_its_slashes(path@, Seq::empty());
    assert(named@.ibm_mq == pair(named.ibm_mq) && named@.mq == pair(named.mq));
}

/// As [`a_named_server_is_gone_to`], of any names, spelled out: a server, a
/// queue manager and a queue go where they say.
pub proof fn a_target_under_a_scheme_goes_where_it_says(
    server: Seq<char>,
    queue_manager: Seq<char>,
    target: Seq<char>,
    named: NamedView,
    at: Seq<char>,
    first: Seq<char>,
    second: Seq<char>,
)
    requires
        is_name(first),
        is_name(second),
    ensures
        named.ibm_mq == Some((at, first)) || named.ibm_mq is None && named.mq == Some((at, first))
            ==> resolved(server, queue_manager, target, named) == Ok::<
            (Seq<char>, Seq<char>, Seq<char>),
            Fault,
        >((at, queue_manager, first)),
        named.ibm_mq == Some((at, first + seq!['/'] + second)) || named.ibm_mq is None && named.mq
            == Some((at, first + seq!['/'] + second)) ==> resolved(
            server,
            queue_manager,
            target,
            named,
        ) == Ok::<(Seq<char>, Seq<char>, Seq<char>), Fault>((at, first, second)),
{
    a_path_is_parted_at_its_slashes(first, second);
    a_path_is_parted_at_its_slashes(second, Seq::empty());
    assert(seq![first] + seq![second] =~= seq![first, second]);
}

/// A target under no scheme goes to the server before its first slash where
/// that has a colon in it, and else to the configured one; and there by the
/// names that are left.
pub proof fn a_plain_target_goes_by_its_first_name(
    server: &str,
    queue_manager: &str,
    target: &str,
    named: Named<'_>,
    before: Seq<char>,
    after: Seq<char>,
    result: Result<(&str, &str, &str), TransportError>,
)
    requires
        call_ensures(resolve, (server, queue_manager, target, named), result),
        named.ibm_mq is None && named.mq is None,
        !before.contains('/'),
    ensures
        target@ == before ==> gives(
            result,
            named_on(queue_manager@, target@, server@, parts_of(target@)),
        ),
        target@ == before + seq!['/'] + after && before.contains(':') ==> gives(
            result,
            named_on(queue_manager@, target@, before, parts_of(after)),
        ),
        target@ == before + seq!['/'] + after && !before.contains(':') ==> gives(
            result,
            named_on(queue_manager@, target@, server@, parts_of(target@)),
        ),
{
    lemma_first(target@);
    assert(named@.ibm_mq == pair(named.ibm_mq) && named@.mq == pair(named.mq));
    if target@ == before + seq!['/'] + after {
        let at = first_at(target@, '/') as int;
        assert(target@[before.len() as int] == '/');
        assert(target@.contains('/'));
        assert(at == before.len()) by {
            if at < before.len() {
                assert(before.contains(before[at]));
            }
        }
        assert(target@.take(at) =~= before);
        assert(target@.skip(at + 1) =~= after);
    }
}

/// A transport resolves a target on its own server and queue manager.
pub proof fn a_transport_resolves_on_what_it_is_configured_with(
    transport: &IbmMqTransport,
    target: &str,
    named: Named<'_>,
    result: Result<(&str, &str, &str), TransportError>,
)
    requires
        call_ensures(IbmMqTransport::resolve, (transport, target, named), result),
    ensures
        gives(
            result,
            resolved(transport@.server, transport@.queue_manager, target@, named@),
        ),
        match named.ibm_mq {
            Some(parts) => named@.ibm_mq == Some((parts.0@, parts.1@)),
            None => named@.ibm_mq is None,
        },
        match named.mq {
            Some(parts) => named@.mq == Some((parts.0@, parts.1@)),
            None => named@.mq is None,
        },
{
}

/// What a target under no scheme names, of any names, spelled out.
pub proof fn a_plain_target_goes_where_it_says(
    server: Seq<char>,
    queue_manager: Seq<char>,
    named: NamedView,
    at: Seq<char>,
    first: Seq<char>,
    second: Seq<char>,
)
    requires
        named.ibm_mq is None && named.mq is None,
        is_name(at) && at.contains(':'),
        is_name(first) && !first.contains(':'),
        is_name(second),
    ensures
        resolved(server, queue_manager, second, named) == Ok::<
            (Seq<char>, Seq<char>, Seq<char>),
            Fault,
        >((server, queue_manager, second)),
        resolved(server, queue_manager, first + seq!['/'] + second, named) == Ok::<
            (Seq<char>, Seq<char>, Seq<char>),
            Fault,
        >((server, first, second)),
        resolved(server, queue_manager, at + seq!['/'] + second, named) == Ok::<
            (Seq<char>, Seq<char>, Seq<char>),
            Fault,
        >((at, queue_manager, second)),
        resolved(
            server,
            queue_manager,
            at + seq!['/'] + (first + seq!['/'] + second),
            named,
        ) == Ok::<(Seq<char>, Seq<char>, Seq<char>), Fault>((at, first, second)),
{
    a_path_is_parted_at_its_slashes(first, second);
    a_path_is_parted_at_its_slashes(second, Seq::empty());
    assert(seq![first] + seq![second] =~= seq![first, second]);
    lemma_first(second);
    lemma_split(first, second);
    lemma_split(at, second);
    lemma_split(at, first + seq!['/'] + second);
}

proof fn lemma_split(before: Seq<char>, after: Seq<char>)
    requires
        !before.contains('/'),
    ensures
        split_once(before + seq!['/'] + after, '/') == Some((before, after)),
{
    let text = before + seq!['/'] + after;
    lemma_first(text);
    let at = first_at(text, '/') as int;
    assert(text[before.len() as int] == '/');
    assert(text.contains('/'));
    assert(at == before.len()) by {
        if at < before.len() {
            assert(before.contains(before[at]));
        }
    }
    assert(text.take(at) =~= before);
    assert(text.skip(at + 1) =~= after);
}

} // verus!
