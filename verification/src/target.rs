//! Where a Stream goes: a target names a server, a queue manager and a
//! queue, or some suffix of them.
//!
//! A target is `ibm-mq://host:1414/<queue manager>/<queue>`,
//! `host:1414/<queue manager>/<queue>`, `<queue manager>/<queue>` on the
//! configured server, or `<queue>` on the configured queue manager. How a
//! target under a scheme comes apart into server and path is every
//! transport's alike, and comes with the target as [`Named`].

use vstd::prelude::*;

use crate::error::{outcome, permanent, Fault, TransportError};
use crate::text::{debug_text, quoted};

verus! {

/// Where `c` first stands in `text`: its length where it does not.
pub open spec fn first_at(text: Seq<char>, c: char) -> nat
    decreases text.len(),
{
    if text.len() == 0 || text[0] == c {
        0
    } else {
        1 + first_at(text.drop_first(), c)
    }
}

proof fn lemma_first_at(text: Seq<char>, c: char, at: nat)
    requires
        at <= text.len(),
        at < text.len() ==> text[at as int] == c,
        forall|i: int| 0 <= i < at ==> #[trigger] text[i] != c,
    ensures
        first_at(text, c) == at,
    decreases text.len(),
{
    if at > 0 {
        assert(text[0] != c);
        assert forall|i: int| 0 <= i < at - 1 implies #[trigger] text.drop_first()[i] != c by {
            assert(text[i + 1] != c);
        }
        lemma_first_at(text.drop_first(), c, (at - 1) as nat);
    }
}

fn find(text: &str, c: char) -> (at: usize)
    ensures
        at == first_at(text@, c),
        at <= text@.len(),
{
    let total: usize = text.unicode_len();
    let mut at: usize = 0;
    let mut found: bool = false;
    for each in it: text.chars()
        invariant
            it.seq() == text@,
            total == text@.len(),
            !found ==> at == it.index(),
            found ==> at < it.index() && text@[at as int] == c,
            forall|i: int| 0 <= i < at ==> #[trigger] text@[i] != c,
    {
        if !found {
            if each == c {
                found = true;
            } else {
                at = at + 1;
            }
        }
    }
    proof {
        lemma_first_at(text@, c, at as nat);
    }
    at
}

/// `text` before and after the first `c` in it, where there is one.
pub open spec fn split_once(text: Seq<char>, c: char) -> Option<(Seq<char>, Seq<char>)> {
    let at = first_at(text, c) as int;
    if at < text.len() {
        Some((text.take(at), text.skip(at + 1)))
    } else {
        None
    }
}

/// A pair of texts, where there is one.
pub open spec fn pair(texts: Option<(&str, &str)>) -> Option<(Seq<char>, Seq<char>)> {
    match texts {
        Some((first, second)) => Some((first@, second@)),
        None => None,
    }
}

fn split_at_first<'a>(text: &'a str, c: char) -> (parts: Option<(&'a str, &'a str)>)
    ensures
        pair(parts) == split_once(text@, c),
{
    let at: usize = find(text, c);
    let total: usize = text.unicode_len();
    if at < total {
        Some((text.substring_char(0, at), text.substring_char(at + 1, total)))
    } else {
        None
    }
}

/// The server and the path that a target names under each scheme, where it
/// is under it.
#[derive(Clone, Copy, Debug)]
pub struct Named<'a> {
    /// Under `ibm-mq://`.
    pub ibm_mq: Option<(&'a str, &'a str)>,
    /// Under `mq://`.
    pub mq: Option<(&'a str, &'a str)>,
}

/// What a [`Named`] holds.
pub struct NamedView {
    pub ibm_mq: Option<(Seq<char>, Seq<char>)>,
    pub mq: Option<(Seq<char>, Seq<char>)>,
}

impl<'a> View for Named<'a> {
    type V = NamedView;

    open spec fn view(&self) -> NamedView {
        NamedView { ibm_mq: pair(self.ibm_mq), mq: pair(self.mq) }
    }
}

/// The parts of `path` between its `/`s that are not empty.
pub open spec fn parts_of(path: Seq<char>) -> Seq<Seq<char>>
    decreases path.len(),
{
    if path.len() == 0 {
        Seq::empty()
    } else {
        let at = first_at(path, '/') as int;
        let rest = if at < path.len() {
            parts_of(path.skip(at + 1))
        } else {
            Seq::empty()
        };
        if at == 0 {
            rest
        } else {
            seq![path.take(at)] + rest
        }
    }
}

/// The texts of a list.
pub open spec fn texts(list: Seq<&str>) -> Seq<Seq<char>> {
    Seq::new(list.len(), |i: int| list[i]@)
}

fn split_parts<'a>(path: &'a str) -> (parts: Vec<&'a str>)
    ensures
        texts(parts@) == parts_of(path@),
{
    let mut parts: Vec<&'a str> = Vec::new();
    let mut left: &'a str = path;
    assert(texts(parts@) + parts_of(path@) =~= parts_of(path@));
    loop
        invariant
            texts(parts@) + parts_of(left@) == parts_of(path@),
        decreases left@.len(),
    {
        let total: usize = left.unicode_len();
        if total == 0 {
            assert(texts(parts@) + parts_of(left@) =~= texts(parts@));
            return parts;
        }
        let at: usize = find(left, '/');
        let ghost before = texts(parts@);
        if at > 0 {
            let part: &'a str = left.substring_char(0, at);
            assert(part@ =~= left@.take(at as int));
            parts.push(part);
            assert(texts(parts@) =~= before.push(left@.take(at as int)));
        }
        if at < total {
            let next: &'a str = left.substring_char(at + 1, total);
            assert(next@ =~= left@.skip(at + 1));
            assert(before + parts_of(left@) =~= texts(parts@) + parts_of(next@));
            left = next;
        } else {
            assert(before + parts_of(left@) =~= texts(parts@));
            return parts;
        }
    }
}

/// The server, queue manager and queue that `path` names on `server`, with
/// `queue_manager` where it names only a queue; or the refusal of
/// `target`, which names neither.
pub open spec fn placed(
    queue_manager: Seq<char>,
    target: Seq<char>,
    server: Seq<char>,
    path: Seq<char>,
) -> Result<(Seq<char>, Seq<char>, Seq<char>), Fault> {
    let parts = parts_of(path);
    if parts.len() == 2 {
        Ok((server, parts[0], parts[1]))
    } else if parts.len() == 1 {
        Ok((server, queue_manager, parts[0]))
    } else {
        Err(permanent(debug_text(target) + " is not <queue manager>/<queue> or <queue>"@))
    }
}

/// The server that `target` names, and the path on it: as it is named under
/// a scheme, `ibm-mq` before `mq`; else what stands before the first `/`
/// where that has a `:` in it; else `server` and the whole target.
pub open spec fn server_and_path(server: Seq<char>, target: Seq<char>, named: NamedView) -> (
    Seq<char>,
    Seq<char>,
) {
    match named.ibm_mq {
        Some(parts) => parts,
        None => match named.mq {
            Some(parts) => parts,
            None => match split_once(target, '/') {
                Some((peer, path)) => if peer.contains(':') {
                    (peer, path)
                } else {
                    (server, target)
                },
                None => (server, target),
            },
        },
    }
}

/// The server, queue manager and queue that `target` names, on `server` and
/// `queue_manager` where it names none.
pub open spec fn resolved(
    server: Seq<char>,
    queue_manager: Seq<char>,
    target: Seq<char>,
    named: NamedView,
) -> Result<(Seq<char>, Seq<char>, Seq<char>), Fault> {
    let (at, path) = server_and_path(server, target, named);
    placed(queue_manager, target, at, path)
}

/// The server, queue manager and queue that `path` names on `server`, on
/// `queue_manager` where it names only a queue.
pub fn place<'a>(queue_manager: &'a str, target: &str, server: &'a str, path: &'a str) -> (result:
    Result<(&'a str, &'a str, &'a str), TransportError>)
    ensures
        outcome(result) == placed(queue_manager@, target@, server@, path@),
{
    let parts = split_parts(path);
    proof {
        assert(texts(parts@).len() == parts@.len());
    }
    if parts.len() == 2 {
        assert(texts(parts@)[0] == parts@[0]@ && texts(parts@)[1] == parts@[1]@);
        Ok((server, parts[0], parts[1]))
    } else if parts.len() == 1 {
        assert(texts(parts@)[0] == parts@[0]@);
        Ok((server, queue_manager, parts[0]))
    } else {
        let mut message = quoted(target);
        message.append(" is not <queue manager>/<queue> or <queue>");
        Err(TransportError::permanent(message))
    }
}

/// The server, queue manager and queue that `target` names, on `server` and
/// `queue_manager` where it names none; `named` is what it names under a
/// scheme.
pub fn resolve<'a>(
    server: &'a str,
    queue_manager: &'a str,
    target: &'a str,
    named: Named<'a>,
) -> (result: Result<(&'a str, &'a str, &'a str), TransportError>)
    ensures
        outcome(result) == resolved(server@, queue_manager@, target@, named@),
{
    let (at, path): (&'a str, &'a str) = match named.ibm_mq {
        Some(parts) => parts,
        None => match named.mq {
            Some(parts) => parts,
            None => match split_at_first(target, '/') {
                Some((peer, path)) => {
                    let colon: usize = find(peer, ':');
                    let width: usize = peer.unicode_len();
                    proof {
                        lemma_contains(peer@, ':');
                    }
                    if colon < width {
                        (peer, path)
                    } else {
                        (server, target)
                    }
                },
                None => (server, target),
            },
        },
    };
    place(queue_manager, target, at, path)
}

proof fn lemma_contains(text: Seq<char>, c: char)
    ensures
        text.contains(c) <==> first_at(text, c) < text.len(),
    decreases text.len(),
{
    if text.len() > 0 {
        if text[0] == c {
            assert(text.contains(c));
        } else {
            lemma_contains(text.drop_first(), c);
            if text.contains(c) {
                let i = choose|i: int| 0 <= i < text.len() && text[i] == c;
                assert(text.drop_first()[i - 1] == c);
            }
            if text.drop_first().contains(c) {
                let i = choose|i: int|
                    0 <= i < text.drop_first().len() && text.drop_first()[i] == c;
                assert(text[i + 1] == c);
            }
        }
    }
}

/// Whether `name` can be one part of a target.
pub open spec fn is_part(name: Seq<char>) -> bool {
    name.len() > 0 && !name.contains('/')
}

proof fn lemma_parted(before: Seq<char>, after: Seq<char>)
    requires
        !before.contains('/'),
    ensures
        first_at(before + seq!['/'] + after, '/') == before.len(),
        split_once(before + seq!['/'] + after, '/') == Some((before, after)),
{
    let text = before + seq!['/'] + after;
    assert forall|i: int| 0 <= i < before.len() implies #[trigger] text[i] != '/' by {
        assert(before.contains(before[i]));
    }
    lemma_first_at(text, '/', before.len());
    assert(text.take(before.len() as int) =~= before);
    assert(text.skip(before.len() as int + 1) =~= after);
}

proof fn lemma_whole(text: Seq<char>)
    requires
        !text.contains('/'),
    ensures
        first_at(text, '/') == text.len(),
        split_once(text, '/') is None,
{
    assert forall|i: int| 0 <= i < text.len() implies #[trigger] text[i] != '/' by {
        assert(text.contains(text[i]));
    }
    lemma_first_at(text, '/', text.len());
}

proof fn lemma_one_part(queue: Seq<char>)
    requires
        is_part(queue),
    ensures
        parts_of(queue) == seq![queue],
{
    lemma_whole(queue);
    assert(queue.take(queue.len() as int) =~= queue);
    assert(parts_of(queue) =~= seq![queue]);
}

proof fn lemma_two_parts(queue_manager: Seq<char>, queue: Seq<char>)
    requires
        is_part(queue_manager),
        is_part(queue),
    ensures
        parts_of(queue_manager + seq!['/'] + queue) == seq![queue_manager, queue],
{
    let path = queue_manager + seq!['/'] + queue;
    lemma_parted(queue_manager, queue);
    lemma_one_part(queue);
    assert(path.take(queue_manager.len() as int) =~= queue_manager);
    assert(path.skip(queue_manager.len() as int + 1) =~= queue);
    assert(parts_of(path) =~= seq![queue_manager, queue]);
}

/// A target that names a server and `<queue manager>/<queue>` under a scheme
/// names all three, whatever is configured.
pub proof fn a_whole_target_names_all(
    server: Seq<char>,
    queue_manager: Seq<char>,
    queue: Seq<char>,
    target: Seq<char>,
    named: NamedView,
    configured_server: Seq<char>,
    configured_manager: Seq<char>,
)
    requires
        is_part(queue_manager),
        is_part(queue),
        ({
            let parts = Some((server, queue_manager + seq!['/'] + queue));
            named.ibm_mq == parts || named.ibm_mq is None && named.mq == parts
        }),
    ensures
        resolved(configured_server, configured_manager, target, named) == Ok::<
            (Seq<char>, Seq<char>, Seq<char>),
            Fault,
        >((server, queue_manager, queue)),
{
    lemma_two_parts(queue_manager, queue);
}

/// Whether a target is under no scheme.
pub open spec fn unnamed(named: NamedView) -> bool {
    named.ibm_mq is None && named.mq is None
}

/// A target that opens with `<host>:<port>/` names its server, queue manager
/// and queue, whatever is configured.
pub proof fn a_target_with_a_port_names_all(
    server: Seq<char>,
    queue_manager: Seq<char>,
    queue: Seq<char>,
    configured_server: Seq<char>,
    configured_manager: Seq<char>,
    named: NamedView,
)
    requires
        unnamed(named),
        !server.contains('/'),
        server.contains(':'),
        is_part(queue_manager),
        is_part(queue),
    ensures
        resolved(
            configured_server,
            configured_manager,
            server + seq!['/'] + queue_manager + seq!['/'] + queue,
            named,
        ) == Ok::<(Seq<char>, Seq<char>, Seq<char>), Fault>((server, queue_manager, queue)),
{
    let path = queue_manager + seq!['/'] + queue;
    let target = server + seq!['/'] + queue_manager + seq!['/'] + queue;
    assert(target =~= server + seq!['/'] + path);
    lemma_parted(server, path);
    lemma_two_parts(queue_manager, queue);
}

/// A target `<queue manager>/<queue>` is on the configured server.
pub proof fn a_target_of_two_is_on_the_server(
    queue_manager: Seq<char>,
    queue: Seq<char>,
    configured_server: Seq<char>,
    configured_manager: Seq<char>,
    named: NamedView,
)
    requires
        unnamed(named),
        is_part(queue_manager),
        !queue_manager.contains(':'),
        is_part(queue),
    ensures
        resolved(
            configured_server,
            configured_manager,
            queue_manager + seq!['/'] + queue,
            named,
        ) == Ok::<(Seq<char>, Seq<char>, Seq<char>), Fault>(
            (configured_server, queue_manager, queue),
        ),
{
    lemma_parted(queue_manager, queue);
    lemma_two_parts(queue_manager, queue);
}

/// A target `<queue>` is on the configured queue manager.
pub proof fn a_target_of_one_is_on_the_queue_manager(
    queue: Seq<char>,
    configured_server: Seq<char>,
    configured_manager: Seq<char>,
    named: NamedView,
)
    requires
        unnamed(named),
        is_part(queue),
    ensures
        resolved(configured_server, configured_manager, queue, named) == Ok::<
            (Seq<char>, Seq<char>, Seq<char>),
            Fault,
        >((configured_server, configured_manager, queue)),
{
    lemma_whole(queue);
    lemma_one_part(queue);
}

} // verus!
