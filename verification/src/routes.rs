//! The path router: a trie of literal and parameter segments.

use crate::fields::FieldMap;
use crate::text::{
    begins_with, cut, finishes_with, parts, parts_of, same_text, split_once, texts,
};
use vstd::prelude::*;

verus! {

/// The separator of path segments, as a pattern.
pub open spec fn slash() -> Seq<char> {
    seq!['/']
}

/// A path without one leading and one trailing `/`.
pub open spec fn normal(path: Seq<char>) -> Seq<char> {
    let inner = if begins_with(path, '/') {
        path.skip(1)
    } else {
        path
    };
    if finishes_with(inner, '/') {
        inner.drop_last()
    } else {
        inner
    }
}

/// The parts of a text between its `/` characters. There is always at least
/// one part; it may be empty.
pub open spec fn pieces(t: Seq<char>) -> Seq<Seq<char>> {
    parts(t, slash())
}

/// The segments of a normalized path: none for the empty path, which
/// denotes the root.
pub open spec fn segments(t: Seq<char>) -> Seq<Seq<char>> {
    if t.len() == 0 {
        Seq::empty()
    } else {
        pieces(t)
    }
}

/// Strips one leading and one trailing `/`.
pub fn uniform_path(path: &str) -> (r: &str)
    ensures
        r@ == normal(path@),
{
    let n: usize = path.unicode_len();
    let start: usize = if n > 0 && path.get_char(0) == '/' {
        1
    } else {
        0
    };
    let end: usize = if n > start && path.get_char(n - 1) == '/' {
        n - 1
    } else {
        n
    };
    proof {
        let inner = if begins_with(path@, '/') {
            path@.skip(1)
        } else {
            path@
        };
        assert(inner =~= path@.subrange(start as int, n as int));
        assert(path@.subrange(start as int, end as int) =~= normal(path@));
    }
    path.substring_char(start, end)
}

/// The first segment of a path and what follows its `/`; the whole path
/// and nothing where it has no `/`.
pub fn split_head(org: &str) -> (r: (&str, &str))
    ensures
        match split_once(org@, slash()) {
            Some((head, rest)) => r.0@ == head && r.1@ == rest,
            None => r.0@ == org@ && r.1@ == Seq::<char>::empty(),
        },
{
    proof {
        reveal_strlit("/");
        reveal_strlit("");
        assert("/"@ =~= slash());
        assert(""@ =~= Seq::<char>::empty());
    }
    match cut(org, "/") {
        Some((head, rest)) => (head, rest),
        None => (org, ""),
    }
}

/// The parts of a text between its `/` characters.
pub fn pieces_of(t: &str) -> (r: Vec<String>)
    ensures
        texts(r@) == pieces(t@),
{
    proof {
        reveal_strlit("/");
        assert("/"@ =~= slash());
    }
    parts_of(t, "/")
}

/// The segments of a normalized path.
pub fn segments_of(t: &str) -> (r: Vec<String>)
    ensures
        texts(r@) == segments(t@),
{
    if t.unicode_len() == 0 {
        let r: Vec<String> = Vec::new();
        proof {
            assert(texts(r@) =~= Seq::<Seq<char>>::empty());
        }
        r
    } else {
        pieces_of(t)
    }
}

/// Why a registration was refused.
#[derive(Debug, PartialEq, Eq)]
pub enum RoutesError {
    /// The path already has an item.
    RouteExists,
    /// The parameter at some position of the trie has the first name; the
    /// new path has the second text there.
    ParamMismatch(String, String),
}

/// `RoutesError` with its texts as sequences.
pub enum Conflict {
    Exists,
    Mismatch(Seq<char>, Seq<char>),
}

impl View for RoutesError {
    type V = Conflict;

    open spec fn view(&self) -> Conflict {
        match self {
            RoutesError::RouteExists => Conflict::Exists,
            RoutesError::ParamMismatch(old_name, new_name) => Conflict::Mismatch(
                old_name@,
                new_name@,
            ),
        }
    }
}

/// The name that a parameter segment binds: the segment without its colon.
pub open spec fn param_name(literal: Seq<char>) -> Seq<char> {
    if literal.len() > 0 {
        literal.skip(1)
    } else {
        literal
    }
}

/// The kind of a trie node: a literal segment, or a parameter. Both hold
/// the segment as it was registered, a parameter with its colon.
#[derive(Debug, PartialEq, Eq)]
pub enum RouteTyp {
    Fixed(String),
    Param(String),
}

impl RouteTyp {
    /// The segment as it was registered.
    pub open spec fn literal(&self) -> Seq<char> {
        match self {
            RouteTyp::Fixed(s) => s@,
            RouteTyp::Param(s) => s@,
        }
    }

    /// A key made by `from`: a parameter exactly if the segment starts
    /// with a colon.
    pub open spec fn wf(&self) -> bool {
        (self is Param) == begins_with(self.literal(), ':')
    }

    /// Whether a segment of a looked-up path matches this key: a literal
    /// matches itself, a parameter whatever does not start with a colon.
    pub open spec fn admits(&self, segment: Seq<char>) -> bool {
        match self {
            RouteTyp::Fixed(s) => s@ == segment,
            RouteTyp::Param(_) => !begins_with(segment, ':'),
        }
    }

    /// The bindings after this key has matched `segment`: a parameter adds
    /// its name, without the colon.
    pub open spec fn bind(&self, segment: Seq<char>, below: Map<Seq<char>, Seq<char>>) -> Map<
        Seq<char>,
        Seq<char>,
    > {
        match self {
            RouteTyp::Fixed(_) => below,
            RouteTyp::Param(s) => below.insert(param_name(s@), segment),
        }
    }

    /// The segment as it was registered.
    pub fn text(&self) -> (r: &str)
        ensures
            r@ == self.literal(),
    {
        match self {
            RouteTyp::Fixed(s) => s.as_str(),
            RouteTyp::Param(s) => s.as_str(),
        }
    }

    /// The key for a segment of a registered path.
    pub fn from(s: &str) -> (r: Self)
        ensures
            r.literal() == s@,
            r.wf(),
    {
        if crate::text::starts_with_char(s, ':') {
            RouteTyp::Param(s.to_owned())
        } else {
            RouteTyp::Fixed(s.to_owned())
        }
    }

    /// Whether a segment of a looked-up path matches this key.
    pub fn search_eq(&self, other: &str) -> (r: bool)
        ensures
            r == self.admits(other@),
    {
        match self {
            RouteTyp::Fixed(fixed) => same_text(fixed.as_str(), other),
            RouteTyp::Param(_) => !crate::text::starts_with_char(other, ':'),
        }
    }

    /// Whether a segment of a path to register is this key. A parameter
    /// refuses every other segment.
    pub fn add_eq(&self, other: &str) -> (r: Result<bool, RoutesError>)
        ensures
            match r {
                Ok(same) => same == (self.literal() == other@) && (self is Param ==> same),
                Err(e) => self is Param && self.literal() != other@ && e@ == Conflict::Mismatch(
                    self.literal(),
                    other@,
                ),
            },
    {
        match self {
            RouteTyp::Fixed(fixed) => Ok(same_text(fixed.as_str(), other)),
            RouteTyp::Param(param) => {
                if same_text(param.as_str(), other) {
                    Ok(true)
                } else {
                    Err(RoutesError::ParamMismatch(param.clone(), other.to_owned()))
                }
            },
        }
    }
}

/// The refusal that a registered pattern `p` brings to the pattern `q`:
/// where the two part, `q` is refused if `p` has a parameter there.
pub open spec fn new_mismatch(p: Seq<Seq<char>>, q: Seq<Seq<char>>) -> Option<Conflict>
    decreases p.len(),
{
    if p.len() == 0 || q.len() == 0 {
        None
    } else if p[0] != q[0] {
        if begins_with(p[0], ':') {
            Some(Conflict::Mismatch(p[0], q[0]))
        } else {
            None
        }
    } else {
        new_mismatch(p.skip(1), q.skip(1))
    }
}

/// Why `q` cannot be registered once `p` is, given why it could not
/// before: `p` itself is there now, what was refused before is refused
/// for the same reason, and what was not is refused only for a parameter
/// of `p`.
pub open spec fn conflict_after(before: Option<Conflict>, p: Seq<Seq<char>>, q: Seq<Seq<char>>) -> Option<
    Conflict,
> {
    if q == p {
        Some(Conflict::Exists)
    } else {
        match before {
            Some(c) => Some(c),
            None => new_mismatch(p, q),
        }
    }
}

/// A node of the trie. A node with an item stands for a registered path.
#[derive(Debug, PartialEq, Eq)]
pub struct Route<T> {
    pub key: RouteTyp,
    pub item: Option<T>,
    pub childs: Vec<Route<T>>,
}

impl<T> Route<T> {
    /// The child at `i` has the segment `literal` as its key.
    pub open spec fn has_child(self, literal: Seq<char>, i: int) -> bool {
        0 <= i < self.childs.len() && self.childs[i].key.literal() == literal
    }

    /// The position of the child with this key, if there is one.
    pub open spec fn child_with(self, literal: Seq<char>) -> Option<int> {
        if exists|i: int| self.has_child(literal, i) {
            Some(choose|i: int| self.has_child(literal, i))
        } else {
            None
        }
    }

    /// The key of the parameter child. In a well-formed node it is the last
    /// child, if there is one at all.
    pub open spec fn param_child(self) -> Option<Seq<char>> {
        if self.childs.len() > 0 && self.childs[self.childs.len() - 1].key is Param {
            Some(self.childs[self.childs.len() - 1].key.literal())
        } else {
            None
        }
    }

    /// What registration keeps true of every node: the keys of its children
    /// are made by `from` and differ from each other, only the last child can
    /// be a parameter, and the children are well-formed themselves.
    pub open spec fn wf(self) -> bool
        decreases self,
    {
        &&& forall|i: int| 0 <= i < self.childs.len() ==> (#[trigger] self.childs[i]).key.wf()
        &&& forall|i: int, j: int|
            0 <= i < j < self.childs.len() ==> (#[trigger] self.childs[i]).key.literal() != (
            #[trigger] self.childs[j]).key.literal()
        &&& forall|i: int|
            0 <= i < self.childs.len() - 1 ==> !((#[trigger] self.childs[i]).key is Param)
        &&& forall|i: int| 0 <= i < self.childs.len() ==> (#[trigger] self.childs[i]).wf()
    }

    /// The item registered under the pattern `p` below this node: the
    /// pattern is followed key by key.
    pub open spec fn registered(self, p: Seq<Seq<char>>) -> Option<T>
        decreases p.len(),
    {
        if p.len() == 0 {
            self.item
        } else {
            match self.child_with(p[0]) {
                Some(i) => self.childs[i].registered(p.skip(1)),
                None => None,
            }
        }
    }

    /// Why the pattern `p` cannot be registered below this node, if it
    /// cannot. What is found deeper in the trie is reported first.
    pub open spec fn conflict(self, p: Seq<Seq<char>>) -> Option<Conflict>
        decreases p.len(),
    {
        if p.len() == 0 {
            if self.item is Some {
                Some(Conflict::Exists)
            } else {
                None
            }
        } else {
            let below = match self.child_with(p[0]) {
                Some(i) => self.childs[i].conflict(p.skip(1)),
                None => None,
            };
            if below is Some {
                below
            } else {
                match self.param_child() {
                    Some(name) => if name != p[0] {
                        Some(Conflict::Mismatch(name, p[0]))
                    } else {
                        None
                    },
                    None => None,
                }
            }
        }
    }

    /// The node that the path `s` leads to, and the parameters bound on the
    /// way. The first segment is for this node's own key, the rest for the
    /// nodes below; among children the first that leads anywhere is taken.
    pub open spec fn locate(self, s: Seq<Seq<char>>) -> Option<
        (Route<T>, Map<Seq<char>, Seq<char>>),
    >
        decreases s.len(), 0nat, 0nat,
    {
        if s.len() == 0 || !self.key.admits(s[0]) {
            None
        } else if s.len() == 1 {
            Some((self, self.key.bind(s[0], Map::empty())))
        } else {
            match Self::locate_among(self.childs@, 0, s.skip(1)) {
                Some((node, below)) => Some((node, self.key.bind(s[0], below))),
                None => None,
            }
        }
    }

    /// `locate` for the first of the children from `from` on that leads
    /// anywhere.
    pub open spec fn locate_among(childs: Seq<Route<T>>, from: int, s: Seq<Seq<char>>) -> Option<
        (Route<T>, Map<Seq<char>, Seq<char>>),
    >
        decreases s.len(), 1nat, childs.len() - from,
    {
        if from < 0 || from >= childs.len() {
            None
        } else {
            match childs[from].locate(s) {
                Some(found) => Some(found),
                None => Self::locate_among(childs, from + 1, s),
            }
        }
    }

    /// A fresh branch for the pattern `p`: one node for each segment, the
    /// item at the last.
    pub open spec fn is_chain(self, p: Seq<Seq<char>>, item: T) -> bool
        decreases p.len(),
    {
        &&& p.len() >= 1
        &&& self.key.literal() == p[0]
        &&& self.key.wf()
        &&& if p.len() == 1 {
            self.item == Some(item) && self.childs.len() == 0
        } else {
            &&& self.item is None
            &&& self.childs.len() == 1
            &&& self.childs[0].is_chain(p.skip(1), item)
        }
    }

    /// `after` is this node with `item` registered under `p` and nothing
    /// else changed.
    pub open spec fn extended(self, p: Seq<Seq<char>>, item: T, after: Route<T>) -> bool {
        &&& after.key == self.key
        &&& after.wf()
        &&& forall|q: Seq<Seq<char>>| #[trigger]
            after.registered(q) == if q == p {
                Some(item)
            } else {
                self.registered(q)
            }
        &&& forall|q: Seq<Seq<char>>| #[trigger]
            after.conflict(q) == conflict_after(self.conflict(q), p, q)
    }

    /// `after` is this node grown by the pattern `p`: the nodes that the
    /// pattern follows are kept, with their children in their order; where
    /// the pattern leaves the trie, a fresh branch for the rest of it is the
    /// new last child; and the node at the pattern's end has the item.
    pub open spec fn grown(self, p: Seq<Seq<char>>, item: T, after: Route<T>) -> bool
        decreases p.len(),
    {
        &&& after.key == self.key
        &&& if p.len() == 0 {
            after.item == Some(item) && after.childs == self.childs
        } else {
            &&& after.item == self.item
            &&& match self.child_with(p[0]) {
                Some(i) => {
                    &&& after.childs.len() == self.childs.len()
                    &&& forall|j: int|
                        0 <= j < self.childs.len() && j != i ==> #[trigger] after.childs[j]
                            == self.childs[j]
                    &&& self.childs[i].grown(p.skip(1), item, after.childs[i])
                },
                None => {
                    &&& after.childs.len() == self.childs.len() + 1
                    &&& forall|j: int|
                        0 <= j < self.childs.len() ==> #[trigger] after.childs[j]
                            == self.childs[j]
                    &&& after.childs[self.childs.len() as int].is_chain(p, item)
                },
            }
        }
    }
}

/// Two patterns with the same first segment and the same rest are the same.
pub proof fn lemma_same_pattern(a: Seq<Seq<char>>, b: Seq<Seq<char>>)
    requires
        a.len() > 0,
        b.len() > 0,
        a[0] == b[0],
        a.skip(1) == b.skip(1),
    ensures
        a == b,
{
    assert(a.skip(1).len() == a.len() - 1);
    assert(b.skip(1).len() == b.len() - 1);
    assert(a.len() == b.len());
    assert forall|j: int| 0 <= j < a.len() implies a[j] == b[j] by {
        if j > 0 {
            assert(a.skip(1)[j - 1] == a[j]);
            assert(b.skip(1)[j - 1] == b[j]);
        }
    }
    assert(a =~= b);
}

/// In a well-formed node a key names one child only.
pub proof fn lemma_child_unique<T>(node: Route<T>, literal: Seq<char>, i: int)
    requires
        node.wf(),
        node.has_child(literal, i),
    ensures
        node.child_with(literal) == Some(i),
{
    let j = choose|j: int| node.has_child(literal, j);
    if i < j {
        assert(node.childs[i].key.literal() != node.childs[j].key.literal());
    }
    if j < i {
        assert(node.childs[j].key.literal() != node.childs[i].key.literal());
    }
}

/// A fresh branch is well-formed and registers its own pattern only.
pub proof fn lemma_chain<T>(node: Route<T>, p: Seq<Seq<char>>, item: T)
    requires
        node.is_chain(p, item),
    ensures
        node.wf(),
        forall|q: Seq<Seq<char>>| #[trigger]
            node.registered(q) == if q == p.skip(1) {
                Some(item)
            } else {
                None
            },
        forall|q: Seq<Seq<char>>| #[trigger]
            node.conflict(q) == if q == p.skip(1) {
                Some(Conflict::Exists)
            } else {
                new_mismatch(p.skip(1), q)
            },
    decreases p.len(),
{
    if p.len() > 1 {
        lemma_chain(node.childs[0], p.skip(1), item);
        assert(node.childs[0].is_chain(p.skip(1), item));
        assert(node.childs[0].key.wf());
        assert(node.childs[0].key.literal() == p[1]);
    }
    assert(node.wf());
    assert forall|q: Seq<Seq<char>>| #[trigger]
        node.registered(q) == if q == p.skip(1) {
            Some(item)
        } else {
            None
        } by {
        if q.len() == 0 {
            if p.len() == 1 {
                assert(q =~= p.skip(1));
            } else {
                assert(p.skip(1).len() > 0);
            }
        } else if p.len() == 1 {
            assert(p.skip(1).len() == 0);
            assert(forall|j: int| !node.has_child(q[0], j));
        } else {
            let child = node.childs[0];
            if q[0] == p[1] {
                assert(node.has_child(q[0], 0));
                lemma_child_unique(node, q[0], 0);
                assert(node.registered(q) == child.registered(q.skip(1)));
                assert(p.skip(1).skip(1) =~= p.skip(2));
                if q.skip(1) == p.skip(1).skip(1) {
                    lemma_same_pattern(q, p.skip(1));
                } else {
                    if q == p.skip(1) {
                        assert(q.skip(1) =~= p.skip(1).skip(1));
                    }
                }
            } else {
                assert(p.skip(1)[0] == p[1]);
                assert(forall|j: int| !node.has_child(q[0], j));
            }
        }
    }
    assert forall|q: Seq<Seq<char>>| #[trigger]
        node.conflict(q) == if q == p.skip(1) {
            Some(Conflict::Exists)
        } else {
            new_mismatch(p.skip(1), q)
        } by {
        let rest = p.skip(1);
        if q.len() == 0 {
            if p.len() == 1 {
                assert(q =~= rest);
            } else {
                assert(rest.len() > 0);
            }
        } else if p.len() == 1 {
            assert(rest.len() == 0);
            assert(forall|j: int| !node.has_child(q[0], j));
        } else {
            let child = node.childs[0];
            assert(child.is_chain(rest, item));
            assert(child.key.wf());
            assert(child.key.literal() == p[1]);
            assert(rest[0] == p[1]);
            assert(node.param_child() == if begins_with(p[1], ':') {
                Some(p[1])
            } else {
                None
            });
            if q[0] == p[1] {
                assert(node.has_child(q[0], 0));
                lemma_child_unique(node, q[0], 0);
                let below = child.conflict(q.skip(1));
                assert(below == if q.skip(1) == rest.skip(1) {
                    Some(Conflict::Exists)
                } else {
                    new_mismatch(rest.skip(1), q.skip(1))
                });
                assert(new_mismatch(rest, q) == new_mismatch(rest.skip(1), q.skip(1)));
                if q.skip(1) == rest.skip(1) {
                    lemma_same_pattern(q, rest);
                } else {
                    if q == rest {
                        assert(q.skip(1) =~= rest.skip(1));
                    }
                }
                assert(node.conflict(q) == below);
            } else {
                assert(forall|j: int| !node.has_child(q[0], j));
                assert(node.child_with(q[0]) is None);
            }
        }
    }
}

/// Registering below one child registers below the node.
pub proof fn lemma_replace_child<T>(
    before: Route<T>,
    after: Route<T>,
    i: int,
    p: Seq<Seq<char>>,
    item: T,
)
    requires
        before.wf(),
        p.len() > 0,
        before.has_child(p[0], i),
        after.key == before.key,
        after.item == before.item,
        after.childs.len() == before.childs.len(),
        after.childs@ == before.childs@.update(i, after.childs[i]),
        before.childs[i].extended(p.skip(1), item, after.childs[i]),
        before.conflict(p) is None,
    ensures
        before.extended(p, item, after),
{
    assert(after.childs.len() == before.childs.len());
    assert forall|j: int| 0 <= j < after.childs.len() implies (#[trigger] after.childs[j]).key
        == before.childs[j].key by {}
    assert(after.wf()) by {
        assert forall|j: int| 0 <= j < after.childs.len() implies (#[trigger] after.childs[j]).wf() by {
            if j != i {
                assert(after.childs[j] == before.childs[j]);
                assert(before.childs[j].wf());
            }
        }
        assert forall|a: int, b: int| 0 <= a < b < after.childs.len() implies (
        #[trigger] after.childs[a]).key.literal() != (#[trigger] after.childs[b]).key.literal() by {
            assert(before.childs[a].key.literal() != before.childs[b].key.literal());
        }
        assert forall|j: int| 0 <= j < after.childs.len() implies (#[trigger] after.childs[j]).key.wf() by {
            assert(before.childs[j].key.wf());
        }
        assert forall|j: int| 0 <= j < after.childs.len() - 1 implies !((
        #[trigger] after.childs[j]).key is Param) by {
            assert(!(before.childs[j].key is Param));
        }
    }
    assert forall|q: Seq<Seq<char>>| #[trigger]
        after.registered(q) == if q == p {
            Some(item)
        } else {
            before.registered(q)
        } by {
        if q.len() == 0 {
        } else if q[0] == p[0] {
            assert(after.has_child(q[0], i));
            lemma_child_unique(before, q[0], i);
            lemma_child_unique(after, q[0], i);
            assert(after.registered(q) == after.childs[i].registered(q.skip(1)));
            if q.skip(1) == p.skip(1) {
                lemma_same_pattern(q, p);
            }
        } else {
            if exists|j: int| before.has_child(q[0], j) {
                let j = choose|j: int| before.has_child(q[0], j);
                assert(j != i);
                assert(after.childs[j] == before.childs[j]);
                assert(after.has_child(q[0], j));
                lemma_child_unique(before, q[0], j);
                lemma_child_unique(after, q[0], j);
            } else {
                assert forall|j: int| !after.has_child(q[0], j) by {
                    if 0 <= j < after.childs.len() {
                        assert(!before.has_child(q[0], j));
                    }
                }
            }
        }
    }
    lemma_child_unique(before, p[0], i);
    assert forall|q: Seq<Seq<char>>| #[trigger]
        after.conflict(q) == conflict_after(before.conflict(q), p, q) by {
        assert(after.param_child() == before.param_child());
        if q.len() == 0 {
        } else if q[0] == p[0] {
            assert(after.has_child(q[0], i));
            lemma_child_unique(after, q[0], i);
            let below = before.childs[i].conflict(q.skip(1));
            assert(after.childs[i].conflict(q.skip(1)) == conflict_after(
                below,
                p.skip(1),
                q.skip(1),
            ));
            if q.skip(1) == p.skip(1) {
                lemma_same_pattern(q, p);
            }
        } else {
            if exists|j: int| before.has_child(q[0], j) {
                let j = choose|j: int| before.has_child(q[0], j);
                assert(j != i);
                assert(after.childs[j] == before.childs[j]);
                assert(after.has_child(q[0], j));
                lemma_child_unique(before, q[0], j);
                lemma_child_unique(after, q[0], j);
            } else {
                assert forall|j: int| !after.has_child(q[0], j) by {
                    if 0 <= j < after.childs.len() {
                        assert(!before.has_child(q[0], j));
                    }
                }
            }
            if begins_with(p[0], ':') {
                assert(before.childs[i].key.wf());
                assert(before.childs[i].key is Param);
                if i < before.childs.len() - 1 {
                    assert(!(before.childs[i].key is Param));
                }
            }
        }
    }
}

/// A fresh branch under a new key registers its pattern below the node.
pub proof fn lemma_push_child<T>(before: Route<T>, after: Route<T>, p: Seq<Seq<char>>, item: T)
    requires
        before.wf(),
        before.param_child() is None,
        p.len() > 0,
        forall|j: int| !before.has_child(p[0], j),
        after.key == before.key,
        after.item == before.item,
        after.childs.len() == before.childs.len() + 1,
        after.childs@ == before.childs@.push(after.childs[before.childs.len() as int]),
        after.childs[before.childs.len() as int].is_chain(p, item),
        before.conflict(p) is None,
    ensures
        before.extended(p, item, after),
{
    let n = before.childs.len() as int;
    let fresh = after.childs[n];
    lemma_chain(fresh, p, item);
    assert(after.childs.len() == n + 1);
    assert forall|j: int| 0 <= j < n implies #[trigger] after.childs[j] == before.childs[j] by {}
    assert(after.wf()) by {
        assert forall|j: int| 0 <= j < after.childs.len() implies (#[trigger] after.childs[j]).wf() by {
            if j < n {
                assert(before.childs[j].wf());
            }
        }
        assert forall|a: int, b: int| 0 <= a < b < after.childs.len() implies (
        #[trigger] after.childs[a]).key.literal() != (#[trigger] after.childs[b]).key.literal() by {
            if b < n {
                assert(before.childs[a].key.literal() != before.childs[b].key.literal());
            } else {
                assert(!before.has_child(p[0], a));
            }
        }
        assert forall|j: int| 0 <= j < after.childs.len() implies (#[trigger] after.childs[j]).key.wf() by {
            if j < n {
                assert(before.childs[j].key.wf());
            }
        }
        assert forall|j: int| 0 <= j < after.childs.len() - 1 implies !((
        #[trigger] after.childs[j]).key is Param) by {
            if j < n - 1 {
                assert(!(before.childs[j].key is Param));
            }
        }
    }
    assert forall|q: Seq<Seq<char>>| #[trigger]
        after.registered(q) == if q == p {
            Some(item)
        } else {
            before.registered(q)
        } by {
        if q.len() == 0 {
        } else if q[0] == p[0] {
            assert(after.has_child(q[0], n));
            lemma_child_unique(after, q[0], n);
            assert(after.registered(q) == fresh.registered(q.skip(1)));
            assert(before.registered(q) is None);
            if q.skip(1) == p.skip(1) {
                lemma_same_pattern(q, p);
            }
        } else {
            if exists|j: int| before.has_child(q[0], j) {
                let j = choose|j: int| before.has_child(q[0], j);
                assert(after.has_child(q[0], j));
                lemma_child_unique(before, q[0], j);
                lemma_child_unique(after, q[0], j);
            } else {
                assert forall|j: int| !after.has_child(q[0], j) by {
                    if 0 <= j < n {
                        assert(!before.has_child(q[0], j));
                    }
                }
            }
        }
    }
    assert forall|q: Seq<Seq<char>>| #[trigger]
        after.conflict(q) == conflict_after(before.conflict(q), p, q) by {
        assert(fresh.key.wf());
        assert(fresh.key.literal() == p[0]);
        assert(after.param_child() == if begins_with(p[0], ':') {
            Some(p[0])
        } else {
            None
        });
        if q.len() == 0 {
            assert(after.conflict(q) == before.conflict(q));
            assert(new_mismatch(p, q) is None);
        } else if q[0] == p[0] {
            assert(after.has_child(q[0], n));
            lemma_child_unique(after, q[0], n);
            assert(forall|j: int| !before.has_child(q[0], j));
            assert(before.child_with(q[0]) is None);
            assert(before.conflict(q) is None);
            let below = fresh.conflict(q.skip(1));
            assert(below == if q.skip(1) == p.skip(1) {
                Some(Conflict::Exists)
            } else {
                new_mismatch(p.skip(1), q.skip(1))
            });
            assert(new_mismatch(p, q) == new_mismatch(p.skip(1), q.skip(1)));
            assert(after.conflict(q) == below);
            if q.skip(1) == p.skip(1) {
                lemma_same_pattern(q, p);
            } else {
                if q == p {
                    assert(q.skip(1) =~= p.skip(1));
                }
            }
        } else {
            if exists|j: int| before.has_child(q[0], j) {
                let j = choose|j: int| before.has_child(q[0], j);
                assert(after.has_child(q[0], j));
                lemma_child_unique(before, q[0], j);
                lemma_child_unique(after, q[0], j);
            } else {
                assert forall|j: int| !after.has_child(q[0], j) by {
                    if 0 <= j < n {
                        assert(!before.has_child(q[0], j));
                    }
                }
            }
        }
    }
}

/// The position of the child with the key `segment`.
fn position_of<T>(childs: &Vec<Route<T>>, segment: &str) -> (r: Option<usize>)
    ensures
        match r {
            Some(i) => i < childs.len() && childs[i as int].key.literal() == segment@,
            None => forall|j: int|
                0 <= j < childs.len() ==> (#[trigger] childs[j]).key.literal() != segment@,
        },
{
    let mut i: usize = 0;
    while i < childs.len()
        invariant
            i <= childs.len(),
            forall|j: int| 0 <= j < i ==> (#[trigger] childs[j]).key.literal() != segment@,
        decreases childs.len() - i,
    {
        if same_text(childs[i].key.text(), segment) {
            return Some(i);
        }
        i = i + 1;
    }
    None
}

impl<T: Copy> Route<T> {
    /// A fresh branch for a path: one node for each of its segments, the
    /// item at the last.
    pub fn new(path: &str, item: T) -> (r: Self)
        ensures
            r.is_chain(pieces(normal(path@)), item),
    {
        let segs = pieces_of(uniform_path(path));
        proof {
            assert(texts(segs@).skip(0) =~= texts(segs@));
        }
        Self::chain(&segs, 0, item)
    }

    fn chain(segs: &Vec<String>, from: usize, item: T) -> (r: Self)
        requires
            from < segs.len(),
        ensures
            r.is_chain(texts(segs@).skip(from as int), item),
        decreases segs.len() - from,
    {
        let key = RouteTyp::from(segs[from].as_str());
        let ghost p = texts(segs@).skip(from as int);
        if from + 1 == segs.len() {
            Route { key, item: Some(item), childs: Vec::new() }
        } else {
            let child = Self::chain(segs, from + 1, item);
            let mut childs: Vec<Route<T>> = Vec::new();
            childs.push(child);
            proof {
                assert(p.skip(1) =~= texts(segs@).skip(from + 1));
            }
            Route { key, item: None, childs }
        }
    }

    /// The node that a path leads to, and the parameters bound on the way.
    /// The first segment of the path is for this node's own key.
    pub fn find(&self, path: &str) -> (r: Option<(&Route<T>, FieldMap)>)
        ensures
            match r {
                Some((node, params)) => self.locate(pieces(normal(path@))) == Some(
                    (*node, params@),
                ) && params.distinct(),
                None => self.locate(pieces(normal(path@))) is None,
            },
    {
        let segs = pieces_of(uniform_path(path));
        proof {
            assert(texts(segs@).skip(0) =~= texts(segs@));
        }
        self.find_from(&segs, 0)
    }

    fn find_from(&self, segs: &Vec<String>, from: usize) -> (r: Option<(&Route<T>, FieldMap)>)
        requires
            from <= segs.len(),
        ensures
            match r {
                Some((node, params)) => self.locate(texts(segs@).skip(from as int)) == Some(
                    (*node, params@),
                ) && params.distinct(),
                None => self.locate(texts(segs@).skip(from as int)) is None,
            },
        decreases segs.len() - from, 0nat,
    {
        let ghost s = texts(segs@).skip(from as int);
        if from == segs.len() {
            return None;
        }
        let segment: &str = segs[from].as_str();
        proof {
            assert(s[0] == segment@);
            assert(s.skip(1) =~= texts(segs@).skip(from + 1));
        }
        if !self.key.search_eq(segment) {
            return None;
        }
        if from + 1 == segs.len() {
            let mut params = FieldMap::new();
            self.bind_into(segment, &mut params);
            return Some((self, params));
        }
        match Self::find_among(&self.childs, segs, from + 1) {
            Some((node, below)) => {
                let mut params = below;
                self.bind_into(segment, &mut params);
                Some((node, params))
            },
            None => None,
        }
    }

    /// Adds what this node's key binds when it matches `segment`.
    fn bind_into(&self, segment: &str, params: &mut FieldMap)
        ensures
            final(params)@ == self.key.bind(segment@, old(params)@),
            old(params).distinct() ==> final(params).distinct(),
    {
        match &self.key {
            RouteTyp::Fixed(_) => {},
            RouteTyp::Param(param) => {
                let n: usize = param.as_str().unicode_len();
                let name: &str = if n > 0 {
                    param.as_str().substring_char(1, n)
                } else {
                    param.as_str()
                };
                proof {
                    assert(param@.subrange(1, n as int) =~= param@.skip(1));
                }
                params.insert(name.to_owned(), segment.to_owned());
            },
        }
    }

    /// `find` for the first of the children that leads anywhere.
    fn find_among<'a>(childs: &'a Vec<Route<T>>, segs: &Vec<String>, from: usize) -> (r: Option<
        (&'a Route<T>, FieldMap),
    >)
        requires
            from < segs.len(),
        ensures
            match r {
                Some((node, params)) => Self::locate_among(
                    childs@,
                    0,
                    texts(segs@).skip(from as int),
                ) == Some((*node, params@)) && params.distinct(),
                None => Self::locate_among(childs@, 0, texts(segs@).skip(from as int)) is None,
            },
        decreases segs.len() - from, 1nat,
    {
        let ghost s = texts(segs@).skip(from as int);
        let mut i: usize = 0;
        while i < childs.len()
            invariant
                i <= childs.len(),
                from < segs.len(),
                s == texts(segs@).skip(from as int),
                Self::locate_among(childs@, 0, s) == Self::locate_among(childs@, i as int, s),
            decreases childs.len() - i,
        {
            match childs[i].find_from(segs, from) {
                Some(found) => {
                    return Some(found);
                },
                None => {},
            }
            i = i + 1;
        }
        None
    }

    /// Registers `item` under a normalized path below this node. The empty
    /// path is this node itself.
    pub fn add(self, path: &str, item: T) -> (r: Result<Route<T>, RoutesError>)
        ensures
            self.wf() ==> match r {
                Ok(after) => {
                    &&& self.conflict(segments(path@)) is None
                    &&& self.grown(segments(path@), item, after)
                    &&& self.extended(segments(path@), item, after)
                },
                Err(e) => self.conflict(segments(path@)) == Some(e@),
            },
    {
        let segs = segments_of(path);
        proof {
            assert(texts(segs@).skip(0) =~= texts(segs@));
        }
        self.add_from(&segs, 0, item)
    }

    fn add_from(self, segs: &Vec<String>, from: usize, item: T) -> (r: Result<
        Route<T>,
        RoutesError,
    >)
        requires
            from <= segs.len(),
        ensures
            self.wf() ==> match r {
                Ok(after) => {
                    &&& self.conflict(texts(segs@).skip(from as int)) is None
                    &&& self.grown(texts(segs@).skip(from as int), item, after)
                    &&& self.extended(texts(segs@).skip(from as int), item, after)
                },
                Err(e) => self.conflict(texts(segs@).skip(from as int)) == Some(e@),
            },
        decreases segs.len() - from,
    {
        let ghost p = texts(segs@).skip(from as int);
        let ghost before = self;
        if from == segs.len() {
            if self.item.is_some() {
                return Err(RoutesError::RouteExists);
            }
            let after = Route { key: self.key, item: Some(item), childs: self.childs };
            proof {
                if before.wf() {
                    assert(after.childs == before.childs);
                    assert(after.wf());
                    assert forall|q: Seq<Seq<char>>| #[trigger]
                        after.registered(q) == if q == p {
                            Some(item)
                        } else {
                            before.registered(q)
                        } by {
                        if q.len() == 0 {
                            assert(q =~= p);
                        } else {
                            assert(p.len() == 0);
                            assert(forall|j: int|
                                after.has_child(q[0], j) == before.has_child(q[0], j));
                            assert(after.child_with(q[0]) == before.child_with(q[0]));
                        }
                    }
                    assert forall|q: Seq<Seq<char>>| #[trigger]
                        after.conflict(q) == conflict_after(before.conflict(q), p, q) by {
                        if q.len() == 0 {
                            assert(q =~= p);
                        } else {
                            assert(p.len() == 0);
                            assert(forall|j: int|
                                after.has_child(q[0], j) == before.has_child(q[0], j));
                            assert(after.child_with(q[0]) == before.child_with(q[0]));
                            assert(after.param_child() == before.param_child());
                        }
                    }
                }
            }
            return Ok(after);
        }
        let segment: &str = segs[from].as_str();
        proof {
            assert(p[0] == segment@);
            assert(p.skip(1) =~= texts(segs@).skip(from + 1));
        }
        let Route { key, item: own, childs } = self;
        let mut childs = childs;
        let found = position_of(&childs, segment);
        match found {
            Some(i) => {
                proof {
                    assert(before.has_child(p[0], i as int));
                    if before.wf() {
                        lemma_child_unique(before, p[0], i as int);
                        assert(before.childs[i as int].wf());
                    }
                }
                let child = childs.remove(i);
                let grown = child.add_from(segs, from + 1, item);
                match grown {
                    Err(e) => Err(e),
                    Ok(next) => {
                        childs.insert(i, next);
                        proof {
                            assert(childs@ =~= before.childs@.update(i as int, next));
                        }
                        let last: usize = childs.len() - 1;
                        match childs[last].key.add_eq(segment) {
                            Err(e) => {
                                proof {
                                    if before.wf() {
                                        assert(childs[last as int].key
                                            == before.childs[last as int].key);
                                    }
                                }
                                Err(e)
                            },
                            Ok(_) => {
                                let after = Route { key, item: own, childs };
                                proof {
                                    if before.wf() {
                                        assert(after.childs[last as int].key
                                            == before.childs[last as int].key);
                                        lemma_replace_child(before, after, i as int, p, item);
                                    }
                                }
                                Ok(after)
                            },
                        }
                    },
                }
            },
            None => {
                proof {
                    assert(forall|j: int| !before.has_child(p[0], j));
                }
                if childs.len() > 0 {
                    let last: usize = childs.len() - 1;
                    match childs[last].key.add_eq(segment) {
                        Err(e) => {
                            return Err(e);
                        },
                        Ok(_) => {},
                    }
                }
                let fresh = Self::chain(segs, from, item);
                childs.push(fresh);
                let after = Route { key, item: own, childs };
                proof {
                    if before.wf() {
                        lemma_push_child(before, after, p, item);
                    }
                }
                Ok(after)
            },
        }
    }
}

/// The routes of one verb: a trie under a root that stands for the empty
/// path.
#[derive(Debug, PartialEq, Eq)]
pub struct Routes<T> {
    pub root: Route<T>,
}

impl<T> View for Routes<T> {
    type V = Map<Seq<Seq<char>>, T>;

    /// The registered patterns, each a sequence of segments, with their
    /// items.
    open spec fn view(&self) -> Map<Seq<Seq<char>>, T> {
        Map::new(
            |p: Seq<Seq<char>>| self.root.registered(p) is Some,
            |p: Seq<Seq<char>>| self.root.registered(p)->0,
        )
    }
}

impl<T> Routes<T> {
    /// The trie is well-formed.
    pub open spec fn wf(&self) -> bool {
        self.root.wf()
    }

    /// Why the pattern `p` cannot be registered, if it cannot.
    pub open spec fn conflict(&self, p: Seq<Seq<char>>) -> Option<Conflict> {
        self.root.conflict(p)
    }

    /// The trie is a root alone, without an item.
    pub open spec fn bare(&self) -> bool {
        self.root.item is None && self.root.childs.len() == 0
    }

    /// What a lookup of the segments `s` gives: the item of the node that
    /// they lead to, if it has one, and the parameters bound on the way.
    pub open spec fn resolve(&self, s: Seq<Seq<char>>) -> Option<(T, Map<Seq<char>, Seq<char>>)> {
        let hit = if s.len() == 0 {
            Some((self.root, Map::<Seq<char>, Seq<char>>::empty()))
        } else {
            Route::locate_among(self.root.childs@, 0, s)
        };
        match hit {
            Some((node, params)) => match node.item {
                Some(item) => Some((item, params)),
                None => None,
            },
            None => None,
        }
    }
}

impl<T: Copy> Routes<T> {
    /// No route at all.
    pub fn new() -> (r: Self)
        ensures
            r.wf(),
            r.bare(),
            r@ == Map::<Seq<Seq<char>>, T>::empty(),
            forall|p: Seq<Seq<char>>| #[trigger] r.conflict(p) is None,
    {
        let r = Routes { root: Route { key: RouteTyp::from("$root"), item: None, childs: Vec::new() } };
        proof {
            assert forall|p: Seq<Seq<char>>| r.root.registered(p) is None by {
                if p.len() > 0 {
                    assert(forall|j: int| !r.root.has_child(p[0], j));
                }
            }
            assert(r@ =~= Map::<Seq<Seq<char>>, T>::empty());
            assert forall|p: Seq<Seq<char>>| #[trigger] r.conflict(p) is None by {
                if p.len() > 0 {
                    assert(forall|j: int| !r.root.has_child(p[0], j));
                }
            }
        }
        r
    }

    /// Registers `item` under `path`. A path that is registered already is
    /// refused, and so is one that has another segment where the trie has
    /// a parameter.
    pub fn add(self, path: &str, item: T) -> (r: Result<Self, RoutesError>)
        ensures
            self.wf() ==> match r {
                Ok(after) => {
                    &&& self.conflict(segments(normal(path@))) is None
                    &&& after.wf()
                    &&& self.root.grown(segments(normal(path@)), item, after.root)
                    &&& after@ == self@.insert(segments(normal(path@)), item)
                    &&& forall|q: Seq<Seq<char>>| #[trigger]
                        after.conflict(q) == conflict_after(
                            self.conflict(q),
                            segments(normal(path@)),
                            q,
                        )
                },
                Err(e) => self.conflict(segments(normal(path@))) == Some(e@),
            },
            self.wf() && self@.contains_key(segments(normal(path@))) ==> r == Err::<
                Self,
                RoutesError,
            >(RoutesError::RouteExists),
    {
        let ghost p = segments(normal(path@));
        proof {
            if self@.contains_key(p) {
                lemma_registered_twice(self.root, p);
            }
        }
        let path = uniform_path(path);
        match self.root.add(path, item) {
            Ok(root) => {
                let after = Routes { root };
                proof {
                    if self.wf() {
                        assert forall|q: Seq<Seq<char>>| #[trigger]
                            after.root.registered(q) == if q == p {
                                Some(item)
                            } else {
                                self.root.registered(q)
                            } by {}
                        assert(after@ =~= self@.insert(p, item));
                    }
                }
                Ok(after)
            },
            Err(e) => Err(e),
        }
    }

    /// The item registered for `path`, with the parameters bound on the way.
    pub fn find(&self, path: &str) -> (r: Option<(T, FieldMap)>)
        ensures
            match r {
                Some((item, params)) => self.resolve(segments(normal(path@))) == Some(
                    (item, params@),
                ) && params.distinct(),
                None => self.resolve(segments(normal(path@))) is None,
            },
    {
        let segs = segments_of(uniform_path(path));
        proof {
            assert(texts(segs@).skip(0) =~= texts(segs@));
        }
        let hit = if segs.len() == 0 {
            Some((&self.root, FieldMap::new()))
        } else {
            Route::find_among(&self.root.childs, &segs, 0)
        };
        match hit {
            Some((node, params)) => match node.item {
                Some(item) => Some((item, params)),
                None => None,
            },
            None => None,
        }
    }
}

/// A table with one more entry, said of each pattern.
pub proof fn lemma_one_more<T>(before: Routes<T>, after: Routes<T>, p: Seq<Seq<char>>, item: T)
    requires
        after@ == before@.insert(p, item),
    ensures
        forall|q: Seq<Seq<char>>| #[trigger]
            after.root.registered(q) == if q == p {
                Some(item)
            } else {
                before.root.registered(q)
            },
{
    assert forall|q: Seq<Seq<char>>| #[trigger]
        after.root.registered(q) == if q == p {
            Some(item)
        } else {
            before.root.registered(q)
        } by {
        assert(after@.contains_key(q) == (after.root.registered(q) is Some));
        assert(before@.contains_key(q) == (before.root.registered(q) is Some));
        if after@.contains_key(q) {
            assert(after@[q] == after.root.registered(q)->0);
        }
        if before@.contains_key(q) {
            assert(before@[q] == before.root.registered(q)->0);
        }
    }
}

/// A pattern that is registered cannot be registered again: the second
/// registration is refused as a duplicate.
pub proof fn lemma_registered_twice<T>(node: Route<T>, p: Seq<Seq<char>>)
    requires
        node.registered(p) is Some,
    ensures
        node.conflict(p) == Some(Conflict::Exists),
    decreases p.len(),
{
    if p.len() > 0 {
        let i = node.child_with(p[0])->0;
        lemma_registered_twice(node.childs[i], p.skip(1));
    }
}

/// No segment of the pattern is a parameter.
pub open spec fn all_literal(p: Seq<Seq<char>>) -> bool {
    forall|i: int| 0 <= i < p.len() ==> !begins_with(#[trigger] p[i], ':')
}

/// Children that lead nowhere are passed over.
pub proof fn lemma_pass_over<T>(childs: Seq<Route<T>>, from: int, to: int, s: Seq<Seq<char>>)
    requires
        0 <= from <= to <= childs.len(),
        forall|j: int| from <= j < to ==> (#[trigger] childs[j]).locate(s) is None,
    ensures
        Route::locate_among(childs, from, s) == Route::locate_among(childs, to, s),
    decreases to - from,
{
    if from < to {
        assert(childs[from].locate(s) is None);
        lemma_pass_over(childs, from + 1, to, s);
    }
}

/// A registered pattern without parameters is found below its node by the
/// path that spells it, and nothing is bound on the way.
pub proof fn lemma_literal_found<T>(node: Route<T>, p: Seq<Seq<char>>, item: T)
    requires
        node.wf(),
        p.len() > 0,
        all_literal(p),
        node.registered(p) == Some(item),
    ensures
        Route::locate_among(node.childs@, 0, p) matches Some((target, params)) && target.item
            == Some(item) && params == Map::<Seq<char>, Seq<char>>::empty(),
    decreases p.len(),
{
    let i = node.child_with(p[0])->0;
    let child = node.childs[i];
    assert(node.has_child(p[0], i));
    assert(child.key.wf());
    assert(!begins_with(p[0], ':'));
    assert(child.key is Fixed);
    assert forall|j: int| 0 <= j < i implies (#[trigger] node.childs@[j]).locate(p) is None by {
        assert(!(node.childs[j].key is Param));
        assert(node.childs[j].key.literal() != node.childs[i].key.literal());
    }
    lemma_pass_over(node.childs@, 0, i, p);
    if p.len() > 1 {
        assert(all_literal(p.skip(1))) by {
            assert forall|j: int| 0 <= j < p.skip(1).len() implies !begins_with(
                #[trigger] p.skip(1)[j],
                ':',
            ) by {
                assert(p.skip(1)[j] == p[j + 1]);
            }
        }
        assert(child.wf());
        lemma_literal_found(child, p.skip(1), item);
    } else {
        assert(p.skip(1).len() == 0);
    }
    assert(child.locate(p) is Some);
}

/// The node that a pattern leads to when it is followed key by key.
pub open spec fn descend<T>(node: Route<T>, prefix: Seq<Seq<char>>) -> Option<Route<T>>
    decreases prefix.len(),
{
    if prefix.len() == 0 {
        Some(node)
    } else {
        match node.child_with(prefix[0]) {
            Some(i) => descend(node.childs[i], prefix.skip(1)),
            None => None,
        }
    }
}

/// At the position `k` of the pattern `p`, no literal route takes the path
/// `s` away from the parameter: the node there has no child with the key
/// `s[k]`, or that child leads nowhere for the rest of the path.
pub open spec fn unshadowed<T>(node: Route<T>, p: Seq<Seq<char>>, k: int, s: Seq<Seq<char>>) -> bool {
    match descend(node, p.take(k)) {
        Some(at) => match at.child_with(s[k]) {
            Some(j) => at.childs[j].locate(s.skip(k)) is None,
            None => true,
        },
        None => true,
    }
}

/// The pattern `p` has its one parameter at `k`, and the path `s` spells
/// the pattern but for a segment of its own in the parameter's place.
pub open spec fn fills_parameter(p: Seq<Seq<char>>, k: int, s: Seq<Seq<char>>) -> bool {
    &&& 0 <= k < p.len()
    &&& s.len() == p.len()
    &&& begins_with(p[k], ':')
    &&& !begins_with(s[k], ':')
    &&& forall|i: int| 0 <= i < p.len() && i != k ==> !begins_with(#[trigger] p[i], ':')
    &&& forall|i: int| 0 <= i < p.len() && i != k ==> #[trigger] s[i] == p[i]
}

/// A registered pattern with one parameter is found by every path that
/// fills the parameter, and the parameter's name is bound to the segment
/// that stands in its place. Left out are the paths that a literal route
/// takes first.
pub proof fn lemma_parameter_bound<T>(
    node: Route<T>,
    p: Seq<Seq<char>>,
    k: int,
    s: Seq<Seq<char>>,
    item: T,
)
    requires
        node.wf(),
        node.registered(p) == Some(item),
        fills_parameter(p, k, s),
        unshadowed(node, p, k, s),
    ensures
        Route::locate_among(node.childs@, 0, s) matches Some((target, params)) && target.item
            == Some(item) && params == Map::<Seq<char>, Seq<char>>::empty().insert(
            param_name(p[k]),
            s[k],
        ),
    decreases p.len(),
{
    let i = node.child_with(p[0])->0;
    let child = node.childs[i];
    assert(node.has_child(p[0], i));
    assert(child.key.wf());
    assert(child.wf());
    if k > 0 {
        assert(!begins_with(p[0], ':'));
        assert(s[0] == p[0]);
        assert(child.key is Fixed);
        assert forall|j: int| 0 <= j < i implies (#[trigger] node.childs@[j]).locate(s) is None by {
            assert(!(node.childs[j].key is Param));
            assert(node.childs[j].key.literal() != node.childs[i].key.literal());
        }
        lemma_pass_over(node.childs@, 0, i, s);
        let p_rest = p.skip(1);
        let s_rest = s.skip(1);
        assert(fills_parameter(p_rest, k - 1, s_rest)) by {
            assert forall|j: int| 0 <= j < p_rest.len() && j != k - 1 implies !begins_with(
                #[trigger] p_rest[j],
                ':',
            ) by {
                assert(p_rest[j] == p[j + 1]);
            }
            assert forall|j: int| 0 <= j < p_rest.len() && j != k - 1 implies #[trigger] s_rest[j]
                == p_rest[j] by {
                assert(s_rest[j] == s[j + 1]);
                assert(p_rest[j] == p[j + 1]);
            }
        }
        assert(unshadowed(child, p_rest, k - 1, s_rest)) by {
            assert(p.take(k)[0] == p[0]);
            assert(p.take(k).skip(1) =~= p_rest.take(k - 1));
            assert(s_rest.skip(k - 1) =~= s.skip(k));
            assert(s_rest[k - 1] == s[k]);
        }
        lemma_parameter_bound(child, p_rest, k - 1, s_rest, item);
        assert(p_rest[k - 1] == p[k]);
        assert(s_rest[k - 1] == s[k]);
        assert(child.locate(s) is Some);
    } else {
        assert(child.key is Param);
        assert(i == node.childs.len() - 1) by {
            if i < node.childs.len() - 1 {
                assert(!(node.childs[i].key is Param));
            }
        }
        assert(p.take(0) =~= Seq::<Seq<char>>::empty());
        assert(s.skip(0) =~= s);
        assert forall|j: int| 0 <= j < i implies (#[trigger] node.childs@[j]).locate(s) is None by {
            assert(!(node.childs[j].key is Param));
            if node.childs[j].key.literal() == s[0] {
                assert(node.has_child(s[0], j));
                lemma_child_unique(node, s[0], j);
            }
        }
        lemma_pass_over(node.childs@, 0, i, s);
        if p.len() > 1 {
            let p_rest = p.skip(1);
            assert(all_literal(p_rest)) by {
                assert forall|j: int| 0 <= j < p_rest.len() implies !begins_with(
                    #[trigger] p_rest[j],
                    ':',
                ) by {
                    assert(p_rest[j] == p[j + 1]);
                }
            }
            assert(s.skip(1) =~= p_rest) by {
                assert forall|j: int| 0 <= j < p_rest.len() implies s.skip(1)[j] == p_rest[j] by {
                    assert(s[j + 1] == p[j + 1]);
                }
            }
            lemma_literal_found(child, p_rest, item);
        } else {
            assert(p.skip(1).len() == 0);
        }
        assert(child.locate(s) is Some);
    }
}

/// Where a registered pattern has a parameter, a pattern that comes the
/// same way and brings a parameter of another name is refused, and the
/// refusal names both: the one in the trie first, then the new one.
pub proof fn lemma_parameter_mismatch<T>(
    node: Route<T>,
    q: Seq<Seq<char>>,
    k: int,
    p: Seq<Seq<char>>,
)
    requires
        node.wf(),
        node.registered(q) is Some,
        0 <= k < q.len(),
        k < p.len(),
        p.take(k) == q.take(k),
        begins_with(q[k], ':'),
        begins_with(p[k], ':'),
        p[k] != q[k],
    ensures
        node.conflict(p) == Some(Conflict::Mismatch(q[k], p[k])),
    decreases k,
{
    let i = node.child_with(q[0])->0;
    let child = node.childs[i];
    assert(node.has_child(q[0], i));
    assert(child.key.wf());
    assert(child.wf());
    if k == 0 {
        assert(child.key is Param);
        assert(i == node.childs.len() - 1) by {
            if i < node.childs.len() - 1 {
                assert(!(node.childs[i].key is Param));
            }
        }
        assert forall|j: int| !node.has_child(p[0], j) by {
            if node.has_child(p[0], j) {
                assert(node.childs[j].key.wf());
                assert(node.childs[j].key is Param);
                if j < node.childs.len() - 1 {
                    assert(!(node.childs[j].key is Param));
                }
            }
        }
    } else {
        assert(p.take(k)[0] == p[0]);
        assert(q.take(k)[0] == q[0]);
        assert(p.skip(1).take(k - 1) =~= p.take(k).skip(1));
        assert(q.skip(1).take(k - 1) =~= q.take(k).skip(1));
        assert(p.skip(1)[k - 1] == p[k]);
        assert(q.skip(1)[k - 1] == q[k]);
        lemma_parameter_mismatch(child, q.skip(1), k - 1, p.skip(1));
    }
}

impl<T> Routes<T> {
    /// Every registered path without parameters is found by the same path,
    /// with its own item and with no parameter bound.
    pub proof fn law_literal_route_found(&self, p: Seq<Seq<char>>)
        requires
            self.wf(),
            self@.contains_key(p),
            all_literal(p),
        ensures
            self.resolve(p) == Some((self@[p], Map::<Seq<char>, Seq<char>>::empty())),
    {
        if p.len() > 0 {
            lemma_literal_found(self.root, p, self@[p]);
        }
    }

    /// A registered path with one parameter segment is found by every path
    /// that has a segment of its own in the parameter's place and is the
    /// same elsewhere: the lookup gives the path's item, and binds the
    /// parameter's name to that segment. Left out are the paths that a
    /// literal route takes first.
    pub proof fn law_parameter_bound(&self, p: Seq<Seq<char>>, k: int, s: Seq<Seq<char>>)
        requires
            self.wf(),
            self@.contains_key(p),
            fills_parameter(p, k, s),
            unshadowed(self.root, p, k, s),
        ensures
            self.resolve(s) == Some(
                (self@[p], Map::<Seq<char>, Seq<char>>::empty().insert(param_name(p[k]), s[k])),
            ),
    {
        lemma_parameter_bound(self.root, p, k, s, self@[p]);
    }

    /// The same path cannot be registered twice: the second registration
    /// is refused as a duplicate.
    pub proof fn law_duplicate_refused(&self, p: Seq<Seq<char>>)
        requires
            self@.contains_key(p),
        ensures
            self.conflict(p) == Some(Conflict::Exists),
    {
        lemma_registered_twice(self.root, p);
    }

    /// Where a registered path has a parameter, a path that comes the same
    /// way and brings a parameter of another name is refused, and the
    /// refusal names both parameters.
    pub proof fn law_parameter_mismatch(&self, q: Seq<Seq<char>>, k: int, p: Seq<Seq<char>>)
        requires
            self.wf(),
            self@.contains_key(q),
            0 <= k < q.len(),
            k < p.len(),
            p.take(k) == q.take(k),
            begins_with(q[k], ':'),
            begins_with(p[k], ':'),
            p[k] != q[k],
        ensures
            self.conflict(p) == Some(Conflict::Mismatch(q[k], p[k])),
    {
        lemma_parameter_mismatch(self.root, q, k, p);
    }
}

} // verus!
