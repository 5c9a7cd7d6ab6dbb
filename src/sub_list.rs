//! The subscription index: a trie keyed by the dot-separated tokens of a
//! subject, whose child lists are kept in most-recently-used order.

use crate::token::same_bytes;
use vstd::prelude::*;

verus! {

/// `after` is `before` without the first element on which `condition`
/// holds, or `before` itself where no element qualifies.
pub open spec fn removed_first<T, F: Fn(&T) -> bool>(
    condition: F,
    before: Seq<T>,
    after: Seq<T>,
) -> bool {
    (exists|i: int|
        {
            &&& 0 <= i < before.len()
            &&& condition.ensures((&before[i],), true)
            &&& forall|j: int| 0 <= j < i ==> condition.ensures((&before[j],), false)
            &&& after == before.remove(i)
        }) || ({
        &&& forall|j: int| 0 <= j < before.len() ==> condition.ensures((&before[j],), false)
        &&& after == before
    })
}

/// Finds the first element on which `condition` holds, moves it to the
/// head of the list and hands it out.
pub fn search_to_front<T, F: Fn(&T) -> bool>(items: &mut Vec<T>, condition: F) -> (r: Option<&mut T>)
    requires
        forall|x: &T| condition.requires((x,)),
    ensures
        match r {
            Some(v) => exists|i: int|
                {
                    &&& 0 <= i < old(items)@.len()
                    &&& condition.ensures((&old(items)@[i],), true)
                    &&& forall|j: int|
                        0 <= j < i ==> condition.ensures((&old(items)@[j],), false)
                    &&& *v == old(items)@[i]
                    &&& final(items)@ == seq![*final(v)] + old(items)@.remove(i)
                },
            None => {
                &&& forall|j: int|
                    0 <= j < old(items)@.len() ==> condition.ensures(
                        (&old(items)@[j],),
                        false,
                    )
                &&& final(items)@ == old(items)@
            },
        },
{
    let mut i: usize = 0;
    while i < items.len()
        invariant
            items@ == old(items)@,
            0 <= i <= items@.len(),
            forall|x: &T| condition.requires((x,)),
            forall|j: int| 0 <= j < i ==> condition.ensures((&items@[j],), false),
        decreases items@.len() - i,
    {
        if condition(&items[i]) {
            let value = items.remove(i);
            items.insert(0, value);
            let ghost moved = items@;
            assert(moved =~= seq![moved[0]] + old(items)@.remove(i as int));
            let r = &mut items[0];
            assert(forall|b: T| #[trigger] moved.update(0, b) =~= seq![b] + old(items)@.remove(i as int));
            assert(*r == old(items)@[i as int]);
            return Some(r);
        }
        i = i + 1;
    }
    None
}

/// Removes the first element on which `condition` holds, if there is one.
pub fn remove_first<T, F: Fn(&T) -> bool>(items: &mut Vec<T>, condition: F)
    requires
        forall|x: &T| condition.requires((x,)),
    ensures
        (exists|i: int|
            {
                &&& 0 <= i < old(items)@.len()
                &&& condition.ensures((&old(items)@[i],), true)
                &&& forall|j: int|
                    0 <= j < i ==> condition.ensures((&old(items)@[j],), false)
                &&& final(items)@ == old(items)@.remove(i)
            }) || ({
            &&& forall|j: int|
                0 <= j < old(items)@.len() ==> condition.ensures(
                    (&old(items)@[j],),
                    false,
                )
            &&& final(items)@ == old(items)@
        }),
{
    let mut i: usize = 0;
    while i < items.len()
        invariant
            items@ == old(items)@,
            0 <= i <= items@.len(),
            forall|x: &T| condition.requires((x,)),
            forall|j: int| 0 <= j < i ==> condition.ensures((&items@[j],), false),
        decreases items@.len() - i,
    {
        if condition(&items[i]) {
            items.remove(i);
            return;
        }
        i = i + 1;
    }
}

/// `f` may be called on any element and gives one answer for each.
pub open spec fn decides<T, F: Fn(&T) -> bool>(f: F) -> bool {
    &&& forall|x: &T| f.requires((x,))
    &&& forall|x: &T| !(f.ensures((x,), true) && f.ensures((x,), false))
}

/// The elements of `s` on which `f` answers `false`, in order.
pub open spec fn kept_by<T, F: Fn(&T) -> bool>(s: Seq<T>, f: F) -> Seq<T> {
    s.filter(|x: T| f.ensures((&x,), false))
}

/// `f` was asked about every element of `s`.
pub open spec fn all_asked<T, F: Fn(&T) -> bool>(s: Seq<T>, f: F) -> bool {
    forall|i: int| 0 <= i < s.len() ==> f.ensures((&s[i],), true) || f.ensures((&s[i],), false)
}

/// Removes, in place, every element on which `condition` answers `true`;
/// the others keep their order.
pub fn retain_by<T, F: Fn(&T) -> bool>(items: &mut Vec<T>, condition: &F)
    requires
        decides(*condition),
    ensures
        final(items)@ == kept_by(old(items)@, *condition),
        all_asked(old(items)@, *condition),
{
    let ghost all = old(items)@;
    let ghost mut done: int = 0;
    let mut i: usize = 0;
    while i < items.len()
        invariant
            decides(*condition),
            0 <= done <= all.len(),
            i == kept_by(all.subrange(0, done), *condition).len(),
            items@ == kept_by(all.subrange(0, done), *condition) + all.subrange(done, all.len() as int),
            all_asked(all.subrange(0, done), *condition),
        decreases all.len() - done,
    {
        let ghost before = all.subrange(0, done + 1);
        proof {
            reveal(Seq::filter);
            assert(before.drop_last() =~= all.subrange(0, done));
            assert(before.last() == all[done]);
            assert(items@[i as int] == all[done]);
        }
        if condition(&items[i]) {
            items.remove(i);
            proof {
                assert(kept_by(before, *condition) == kept_by(all.subrange(0, done), *condition));
                assert(items@ =~= kept_by(before, *condition) + all.subrange(done + 1, all.len() as int));
            }
        } else {
            proof {
                assert(kept_by(before, *condition) == kept_by(all.subrange(0, done), *condition).push(all[done]));
                assert(items@ =~= kept_by(before, *condition) + all.subrange(done + 1, all.len() as int));
            }
            i = i + 1;
        }
        proof {
            assert forall|j: int| 0 <= j < before.len() implies condition.ensures((&before[j],), true)
                || condition.ensures((&before[j],), false) by {
                if j < done {
                    assert(before[j] == all.subrange(0, done)[j]);
                }
            }
            done = done + 1;
        }
    }
    proof {
        assert(all.subrange(0, done) =~= all);
    }
}

/// `after` is well formed and holds, at each path, what `before` held there
/// without the subscriptions on which `f` answers `true`; and `f` was asked
/// about every subscription.
pub open spec fn filtered<T, F: Fn(&T) -> bool>(before: Entry<T>, after: Entry<T>, f: F) -> bool {
    &&& after.wf()
    &&& forall|p: Seq<Seq<u8>>|
        #[trigger] after.lookup(p) == match before.lookup(p) {
            Some(s) => Some(kept_by(s, f)),
            None => None,
        }
    &&& forall|p: Seq<Seq<u8>>| #[trigger] before.lookup(p) is Some ==> all_asked(before.lookup(p)->0, f)
}

/// `after` holds, element for element, what `f` made of `before`.
pub open spec fn mapped_by<T, F: Fn(T) -> T>(before: Seq<T>, after: Seq<T>, f: F) -> bool {
    &&& after.len() == before.len()
    &&& forall|i: int| 0 <= i < before.len() ==> f.ensures((before[i],), #[trigger] after[i])
}

/// Replaces, in place, every element `x` by `f(x)`.
pub fn map_in_place<T, F: Fn(T) -> T>(items: &mut Vec<T>, f: &F)
    requires
        forall|x: T| f.requires((x,)),
    ensures
        mapped_by(old(items)@, final(items)@, *f),
{
    let mut i: usize = 0;
    while i < items.len()
        invariant
            forall|x: T| f.requires((x,)),
            0 <= i <= items@.len(),
            items@.len() == old(items)@.len(),
            forall|j: int| 0 <= j < i ==> f.ensures((old(items)@[j],), #[trigger] items@[j]),
            forall|j: int| i <= j < items@.len() ==> #[trigger] items@[j] == old(items)@[j],
        decreases items@.len() - i,
    {
        let x = items.remove(i);
        let y = f(x);
        items.insert(i, y);
        i = i + 1;
    }
}

/// `after` is well formed, has nodes where `before` has, and holds at each
/// path what `f` made of each subscription `before` held there.
pub open spec fn mapped<T, F: Fn(T) -> T>(before: Entry<T>, after: Entry<T>, f: F) -> bool {
    &&& after.wf()
    &&& forall|p: Seq<Seq<u8>>| #[trigger] after.lookup(p) is Some == before.lookup(p) is Some
    &&& forall|p: Seq<Seq<u8>>|
        #[trigger] before.lookup(p) is Some ==> mapped_by(
            before.lookup(p)->0,
            after.lookup(p)->0,
            f,
        )
}

/// An ordered list that moves each element found by a search to its head.
#[derive(Debug)]
pub struct Level<T> {
    inner: Vec<T>,
}

impl<T> Level<T> {
    pub closed spec fn view(&self) -> Seq<T> {
        self.inner@
    }

    pub fn new() -> (r: Self)
        ensures
            r.view() == Seq::<T>::empty(),
    {
        Level { inner: Vec::new() }
    }

    /// Puts `value` at the head of the list.
    pub fn insert(&mut self, value: T)
        ensures
            final(self).view() == seq![value] + old(self).view(),
    {
        self.inner.insert(0, value);
    }

    /// Finds the first element on which `condition` holds, moves it to the
    /// head of the list and hands it out.
    pub fn search<F: Fn(&T) -> bool>(&mut self, condition: F) -> (r: Option<&mut T>)
        requires
            forall|x: &T| condition.requires((x,)),
        ensures
            match r {
                Some(v) => exists|i: int|
                    {
                        &&& 0 <= i < old(self).view().len()
                        &&& condition.ensures((&old(self).view()[i],), true)
                        &&& forall|j: int|
                            0 <= j < i ==> condition.ensures((&old(self).view()[j],), false)
                        &&& *v == old(self).view()[i]
                        &&& final(self).view() == seq![*final(v)] + old(self).view().remove(i)
                    },
                None => {
                    &&& forall|j: int|
                        0 <= j < old(self).view().len() ==> condition.ensures(
                            (&old(self).view()[j],),
                            false,
                        )
                    &&& final(self).view() == old(self).view()
                },
            },
    {
        let r = search_to_front(&mut self.inner, condition);
        proof {
            if r is Some {
                let v = r->0;
                let i = choose|i: int|
                    {
                        &&& 0 <= i < old(self).inner@.len()
                        &&& condition.ensures((&old(self).inner@[i],), true)
                        &&& forall|j: int|
                            0 <= j < i ==> condition.ensures((&old(self).inner@[j],), false)
                        &&& *v == old(self).inner@[i]
                        &&& after_borrow(self.inner)@ == seq![*final(v)] + old(self).inner@.remove(i)
                    };
                assert(condition.ensures((&old(self).view()[i],), true));
            }
        }
        r
    }

    /// Removes the first element on which `condition` holds, if there is one.
    pub fn remove<F: Fn(&T) -> bool>(&mut self, condition: F)
        requires
            forall|x: &T| condition.requires((x,)),
        ensures
            removed_first(condition, old(self).view(), final(self).view()),
    {
        remove_first(&mut self.inner, condition)
    }

    pub fn len(&self) -> (r: usize)
        ensures
            r == self.view().len(),
    {
        self.inner.len()
    }
}

/// Whether the child at index `i` is the one under `key`.
pub open spec fn has_key_at<T>(children: Seq<(Vec<u8>, Entry<T>)>, key: Seq<u8>, i: int) -> bool {
    0 <= i < children.len() && children[i].0@ == key
}

/// No two children share a key.
pub open spec fn keys_unique<T>(children: Seq<(Vec<u8>, Entry<T>)>) -> bool {
    forall|i: int, j: int|
        0 <= i < children.len() && 0 <= j < children.len() && #[trigger] children[i].0@
            == #[trigger] children[j].0@ ==> i == j
}

/// The path spelled by a list of tokens.
pub open spec fn path_of(list: Seq<Vec<u8>>) -> Seq<Seq<u8>> {
    list.map_values(|k: Vec<u8>| k@)
}

/// What `subscribe` leaves at `p`, given what was there: the subscription is
/// appended at `path`, and the nodes on the way to it exist.
pub open spec fn subscribed<T>(before: Option<Seq<T>>, p: Seq<Seq<u8>>, path: Seq<Seq<u8>>, sub: T) -> Option<Seq<T>> {
    if p == path {
        Some(
            match before {
                Some(s) => s,
                None => Seq::empty(),
            }.push(sub),
        )
    } else if p.is_prefix_of(path) && before is None {
        Some(Seq::empty())
    } else {
        before
    }
}

proof fn lemma_path_step(p: Seq<Seq<u8>>, path: Seq<Seq<u8>>)
    requires
        p.len() > 0,
        path.len() > 0,
    ensures
        p[0] == path[0] ==> ((p == path) == (p.drop_first() == path.drop_first())),
        p[0] == path[0] ==> (p.is_prefix_of(path) == p.drop_first().is_prefix_of(
            path.drop_first(),
        )),
        p[0] != path[0] ==> p != path && !p.is_prefix_of(path),
{
    if p[0] == path[0] {
        if p.drop_first() == path.drop_first() {
            assert(p.drop_first().len() == p.len() - 1);
            assert(path.drop_first().len() == path.len() - 1);
            assert(p.len() == path.len());
            assert(p =~= path) by {
                assert forall|j: int| 0 <= j < p.len() implies p[j] == path[j] by {
                    if j > 0 {
                        assert(p[j] == p.drop_first()[j - 1]);
                        assert(path[j] == path.drop_first()[j - 1]);
                    }
                }
            }
        }
        if p.drop_first().is_prefix_of(path.drop_first()) {
            assert(p =~= path.subrange(0, p.len() as int)) by {
                assert forall|j: int| 0 <= j < p.len() implies p[j] == path[j] by {
                    if j > 0 {
                        assert(p[j] == p.drop_first()[j - 1]);
                        assert(path[j] == path.drop_first()[j - 1]);
                        assert(p.drop_first()[j - 1] == path.drop_first().subrange(
                            0,
                            p.drop_first().len() as int,
                        )[j - 1]);
                    }
                }
            }
        }
        if p.is_prefix_of(path) {
            assert(p.drop_first() =~= path.drop_first().subrange(0, p.drop_first().len() as int))
                by {
                assert forall|j: int| 0 <= j < p.drop_first().len() implies p.drop_first()[j]
                    == path.drop_first()[j] by {
                    assert(p[j + 1] == path.subrange(0, p.len() as int)[j + 1]);
                }
            }
        }
    } else {
        if p.is_prefix_of(path) {
            assert(p[0] == path.subrange(0, p.len() as int)[0]);
        }
    }
}

/// Along `path`, every edge taken stands at the head of its parent's child
/// list.
pub open spec fn fronted<T>(e: Entry<T>, path: Seq<Seq<u8>>) -> bool {
    forall|k: int|
        0 <= k < path.len() ==> {
            &&& #[trigger] e.node_at(path.subrange(0, k)) is Some
            &&& e.node_at(path.subrange(0, k))->0.children().len() > 0
            &&& e.node_at(path.subrange(0, k))->0.children()[0].0@ == path[k]
        }
}

/// `after` is well formed and holds what `before` holds, but `v` at `path`.
pub open spec fn updated_at<T>(before: Entry<T>, after: Entry<T>, path: Seq<Seq<u8>>, v: Seq<T>) -> bool {
    &&& after.wf()
    &&& forall|p: Seq<Seq<u8>>|
        #[trigger] after.lookup(p) == if p == path {
            Some(v)
        } else {
            before.lookup(p)
        }
}

/// `after` is well formed and holds what `before` holds.
pub open spec fn same_lookups<T>(before: Entry<T>, after: Entry<T>) -> bool {
    &&& after.wf()
    &&& forall|p: Seq<Seq<u8>>| #[trigger] after.lookup(p) == before.lookup(p)
}

/// Removing one child keeps the others' keys distinct.
proof fn lemma_unique_remove<T>(children: Seq<(Vec<u8>, Entry<T>)>, i: int)
    requires
        keys_unique(children),
        0 <= i < children.len(),
    ensures
        keys_unique(children.remove(i)),
        forall|j: int|
            0 <= j < children.remove(i).len() ==> children.remove(i)[j].0@ != children[i].0@,
{
    let r = children.remove(i);
    assert forall|a: int, b: int|
        0 <= a < r.len() && 0 <= b < r.len() && #[trigger] r[a].0@ == #[trigger] r[b].0@ implies a == b by {
        let a2 = if a < i { a } else { a + 1 };
        let b2 = if b < i { b } else { b + 1 };
        assert(r[a] == children[a2]);
        assert(r[b] == children[b2]);
    }
    assert forall|j: int| 0 <= j < r.len() implies r[j].0@ != children[i].0@ by {
        let j2 = if j < i { j } else { j + 1 };
        assert(r[j] == children[j2]);
    }
}

/// The index of the child under `key`, where there is one.
pub open spec fn key_index<T>(children: Seq<(Vec<u8>, Entry<T>)>, key: Seq<u8>) -> int {
    choose|i: int| has_key_at(children, key, i)
}

/// The number of leaf nodes below the children `ch`.
pub closed spec fn children_leaves<T>(ch: Seq<(Vec<u8>, Entry<T>)>) -> nat
    decreases ch,
{
    if ch.len() == 0 {
        0
    } else {
        children_leaves(ch.drop_last()) + ch.last().1.leaves()
    }
}

/// `after` is well formed and holds what `before` holds, but nothing at or
/// below a non-empty `path`.
pub open spec fn pruned_at<T>(before: Entry<T>, after: Entry<T>, path: Seq<Seq<u8>>) -> bool {
    &&& after.wf()
    &&& forall|p: Seq<Seq<u8>>|
        #[trigger] after.lookup(p) == if path.len() > 0 && path.is_prefix_of(p) {
            None
        } else {
            before.lookup(p)
        }
}

pub open spec fn min_usize(n: nat) -> nat {
    if n <= usize::MAX {
        n
    } else {
        usize::MAX as nat
    }
}

/// A node of the subject trie: the subscriptions that end here, and the
/// children keyed by the next token.
pub struct Entry<T> {
    inner: Vec<T>,
    next_level: Vec<(Vec<u8>, Entry<T>)>,
}

impl<T> Entry<T> {
    pub closed spec fn children(self) -> Seq<(Vec<u8>, Entry<T>)> {
        self.next_level@
    }

    /// The node reached from this one by following `path`, one token per level.
    pub closed spec fn node_at(self, path: Seq<Seq<u8>>) -> Option<Entry<T>>
        decreases path.len(),
    {
        if path.len() == 0 {
            Some(self)
        } else if exists|i: int| has_key_at(self.children(), path[0], i) {
            let i = choose|i: int| has_key_at(self.children(), path[0], i);
            self.children()[i].1.node_at(path.drop_first())
        } else {
            None
        }
    }

    /// The subscriptions stored at `path`, or `None` where the trie has no node.
    pub closed spec fn lookup(self, path: Seq<Seq<u8>>) -> Option<Seq<T>> {
        match self.node_at(path) {
            Some(e) => Some(e.inner@),
            None => None,
        }
    }

    /// Every node below this one keeps its children's keys distinct.
    pub closed spec fn wf(self) -> bool {
        forall|p: Seq<Seq<u8>>| #[trigger]
            self.node_at(p) is Some ==> keys_unique(self.node_at(p)->0.children())
    }

    proof fn lemma_root_unique(self)
        requires
            self.wf(),
        ensures
            keys_unique(self.children()),
    {
        assert(self.node_at(Seq::empty()) is Some);
    }

    proof fn lemma_child_step(self, i: int, p: Seq<Seq<u8>>)
        requires
            keys_unique(self.children()),
            0 <= i < self.children().len(),
            p.len() > 0,
            p[0] == self.children()[i].0@,
        ensures
            self.node_at(p) == self.children()[i].1.node_at(p.drop_first()),
    {
        assert(has_key_at(self.children(), p[0], i));
    }

    proof fn lemma_no_child(self, p: Seq<Seq<u8>>)
        requires
            p.len() > 0,
            forall|j: int| 0 <= j < self.children().len() ==> self.children()[j].0@ != p[0],
        ensures
            self.node_at(p) is None,
    {
    }

    proof fn lemma_child_wf(self, i: int)
        requires
            self.wf(),
            0 <= i < self.children().len(),
        ensures
            self.children()[i].1.wf(),
    {
        let c = self.children()[i].1;
        let k = self.children()[i].0@;
        assert forall|q: Seq<Seq<u8>>| #[trigger] c.node_at(q) is Some implies keys_unique(
            c.node_at(q)->0.children(),
        ) by {
            let p = seq![k] + q;
            assert(p.drop_first() =~= q);
            self.lemma_root_unique();
            self.lemma_child_step(i, p);
            assert(self.node_at(p) is Some);
        }
    }

    /// The node whose children are `(kv, e2)` in front of `rest`: paths
    /// through `kv` lead into `e2`, all others into `rest`.
    proof fn lemma_front(self, kv: Seq<u8>, e2: Entry<T>, rest: Seq<(Vec<u8>, Entry<T>)>)
        requires
            self.children().len() == rest.len() + 1,
            self.children()[0].0@ == kv,
            self.children()[0].1 == e2,
            self.children().drop_first() == rest,
            keys_unique(rest),
            forall|j: int| 0 <= j < rest.len() ==> rest[j].0@ != kv,
        ensures
            keys_unique(self.children()),
            forall|p: Seq<Seq<u8>>|
                p.len() > 0 && p[0] == kv ==> #[trigger] self.node_at(p) == e2.node_at(
                    p.drop_first(),
                ),
            forall|p: Seq<Seq<u8>>, j: int|
                p.len() > 0 && has_key_at(rest, p[0], j) ==> #[trigger] self.node_at(p)
                    == #[trigger] rest[j].1.node_at(p.drop_first()),
            forall|p: Seq<Seq<u8>>|
                p.len() > 0 && p[0] != kv && (forall|j: int|
                    0 <= j < rest.len() ==> rest[j].0@ != p[0]) ==> #[trigger] self.node_at(p)
                    is None,
    {
        let ch = self.children();
        assert forall|i: int, j: int|
            0 <= i < ch.len() && 0 <= j < ch.len() && #[trigger] ch[i].0@ == #[trigger] ch[j].0@ implies i
            == j by {
            if i > 0 && j > 0 {
                assert(ch[i] == rest[i - 1]);
                assert(ch[j] == rest[j - 1]);
            } else if i > 0 {
                assert(ch[i] == rest[i - 1]);
            } else if j > 0 {
                assert(ch[j] == rest[j - 1]);
            }
        }
        assert forall|p: Seq<Seq<u8>>|
            p.len() > 0 && p[0] == kv implies #[trigger] self.node_at(p) == e2.node_at(
                p.drop_first(),
            ) by {
            assert(has_key_at(ch, p[0], 0));
        }
        assert forall|p: Seq<Seq<u8>>, j: int|
            p.len() > 0 && has_key_at(rest, p[0], j) implies #[trigger] self.node_at(p)
                == #[trigger] rest[j].1.node_at(p.drop_first()) by {
            assert(ch[j + 1] == rest[j]);
            assert(has_key_at(ch, p[0], j + 1));
        }
        assert forall|p: Seq<Seq<u8>>|
            p.len() > 0 && p[0] != kv && (forall|j: int|
                0 <= j < rest.len() ==> rest[j].0@ != p[0]) implies #[trigger] self.node_at(p)
            is None by {
            assert forall|j: int| 0 <= j < ch.len() implies ch[j].0@ != p[0] by {
                if j > 0 {
                    assert(ch[j] == rest[j - 1]);
                }
            }
        }
    }

    proof fn lemma_wf_from_children(self)
        requires
            keys_unique(self.children()),
            forall|j: int| 0 <= j < self.children().len() ==> (#[trigger] self.children()[j]).1.wf(),
        ensures
            self.wf(),
    {
        assert forall|p: Seq<Seq<u8>>| #[trigger]
            self.node_at(p) is Some implies keys_unique(self.node_at(p)->0.children()) by {
            if p.len() > 0 {
                let i = choose|i: int| has_key_at(self.children(), p[0], i);
                self.lemma_child_step(i, p);
                let c = self.children()[i].1;
                assert(c.wf());
                assert(c.node_at(p.drop_first()) is Some);
            }
        }
    }

    /// The child list after `child` (found at `i`) moved to the head and
    /// was changed into `e2`: paths into the child now lead into `e2`.
    proof fn lemma_child_replaced(old_e: Entry<T>, new_e: Entry<T>, i: int, e2: Entry<T>)
        requires
            old_e.wf(),
            e2.wf(),
            0 <= i < old_e.children().len(),
            new_e.children() == seq![(old_e.children()[i].0, e2)] + old_e.children().remove(i),
        ensures
            new_e.wf(),
            forall|p: Seq<Seq<u8>>|
                p.len() > 0 && p[0] == old_e.children()[i].0@ ==> #[trigger] new_e.node_at(p)
                    == e2.node_at(p.drop_first()),
            forall|p: Seq<Seq<u8>>|
                p.len() > 0 && p[0] != old_e.children()[i].0@ ==> #[trigger] new_e.node_at(p)
                    == old_e.node_at(p),
    {
        let ch = old_e.children();
        let kv = ch[i].0@;
        let rest = ch.remove(i);
        old_e.lemma_root_unique();
        lemma_unique_remove(ch, i);
        assert(new_e.children().drop_first() =~= rest);
        new_e.lemma_front(kv, e2, rest);
        assert forall|p: Seq<Seq<u8>>|
            p.len() > 0 && p[0] != kv implies #[trigger] new_e.node_at(p) == old_e.node_at(p) by {
            if exists|j: int| has_key_at(rest, p[0], j) {
                let j = choose|j: int| has_key_at(rest, p[0], j);
                let j2 = if j < i { j } else { j + 1 };
                assert(rest[j] == ch[j2]);
                old_e.lemma_child_step(j2, p);
            } else {
                assert forall|j: int| 0 <= j < ch.len() implies ch[j].0@ != p[0] by {
                    if j != i {
                        let j1 = if j < i { j } else { j - 1 };
                        assert(rest[j1] == ch[j]);
                        assert(!has_key_at(rest, p[0], j1));
                    }
                }
                old_e.lemma_no_child(p);
            }
        }
        assert forall|j: int| 0 <= j < new_e.children().len() implies (
        #[trigger] new_e.children()[j]).1.wf() by {
            if j > 0 {
                let j2 = if j - 1 < i { j - 1 } else { j };
                assert(new_e.children()[j] == ch[j2]);
                old_e.lemma_child_wf(j2);
            }
        }
        new_e.lemma_wf_from_children();
    }

    /// The child list after a child `e2` under a new key `kv` was put at
    /// its head.
    proof fn lemma_child_added(old_e: Entry<T>, new_e: Entry<T>, kv: Seq<u8>, e2: Entry<T>)
        requires
            old_e.wf(),
            e2.wf(),
            new_e.children().len() == old_e.children().len() + 1,
            new_e.children()[0].0@ == kv,
            new_e.children()[0].1 == e2,
            new_e.children().drop_first() == old_e.children(),
            forall|j: int| 0 <= j < old_e.children().len() ==> old_e.children()[j].0@ != kv,
        ensures
            new_e.wf(),
            forall|p: Seq<Seq<u8>>|
                p.len() > 0 && p[0] == kv ==> #[trigger] new_e.node_at(p) == e2.node_at(
                    p.drop_first(),
                ),
            forall|p: Seq<Seq<u8>>|
                p.len() > 0 && p[0] != kv ==> #[trigger] new_e.node_at(p) == old_e.node_at(p),
    {
        let ch = old_e.children();
        old_e.lemma_root_unique();
        new_e.lemma_front(kv, e2, ch);
        assert forall|p: Seq<Seq<u8>>|
            p.len() > 0 && p[0] != kv implies #[trigger] new_e.node_at(p) == old_e.node_at(p) by {
            if exists|j: int| has_key_at(ch, p[0], j) {
                let j = choose|j: int| has_key_at(ch, p[0], j);
                old_e.lemma_child_step(j, p);
            } else {
                assert forall|j: int| 0 <= j < ch.len() implies ch[j].0@ != p[0] by {
                    assert(!has_key_at(ch, p[0], j));
                }
                old_e.lemma_no_child(p);
            }
        }
        assert forall|j: int| 0 <= j < new_e.children().len() implies (
        #[trigger] new_e.children()[j]).1.wf() by {
            if j > 0 {
                assert(new_e.children()[j] == ch[j - 1]);
                old_e.lemma_child_wf(j - 1);
            }
        }
        new_e.lemma_wf_from_children();
    }

    /// Finds the child under `key` and moves it to the head of the child list.
    fn search_mut_entry(&mut self, key: &[u8]) -> (r: Option<&mut Self>)
        requires
            old(self).wf(),
        ensures
            final(self).inner == old(self).inner,
            match r {
                Some(e) => {
                    let i = key_index(old(self).children(), key@);
                    &&& has_key_at(old(self).children(), key@, i)
                    &&& *e == old(self).children()[i].1
                    &&& final(self).children() == seq![(old(self).children()[i].0, *final(e))]
                        + old(self).children().remove(i)
                },
                None => {
                    &&& forall|j: int|
                        0 <= j < old(self).children().len() ==> old(self).children()[j].0@
                            != key@
                    &&& final(self).children() == old(self).children()
                },
            },
    {
        proof {
            old(self).lemma_root_unique();
        }
        let is_key = |item: &(Vec<u8>, Entry<T>)| -> (b: bool)
            ensures
                b == (item.0@ =~= key@),
            { same_bytes(item.0.as_slice(), key) };
        let found = search_to_front(&mut self.next_level, is_key);
        proof {
            if found is Some {
                let v = found->0;
                let i = choose|i: int|
                    {
                        &&& 0 <= i < old(self).next_level@.len()
                        &&& is_key.ensures((&old(self).next_level@[i],), true)
                        &&& forall|j: int|
                            0 <= j < i ==> is_key.ensures((&old(self).next_level@[j],), false)
                        &&& *v == old(self).next_level@[i]
                        &&& after_borrow(self.next_level)@ == seq![*final(v)] + old(self).next_level@.remove(i)
                    };
                assert(has_key_at(old(self).children(), key@, i));
                assert(key_index(old(self).children(), key@) == i);
            }
        }
        match found {
            Some(pair) => {
                proof {
                    let i = key_index(old(self).children(), key@);
                    assert(after_borrow(self.next_level)@ == seq![*final(pair)] + old(self).next_level@.remove(i));
                    assert(*pair == old(self).children()[i]);
                }
                Some(&mut pair.1)
            },
            None => None,
        }
    }

    proof fn lemma_same_children(a: Entry<T>, b: Entry<T>)
        requires
            a.wf(),
            a.children() == b.children(),
        ensures
            b.wf(),
            forall|p: Seq<Seq<u8>>| p.len() > 0 ==> #[trigger] b.node_at(p) == a.node_at(p),
    {
        assert forall|p: Seq<Seq<u8>>| p.len() > 0 implies #[trigger] b.node_at(p) == a.node_at(p) by {
        }
        assert forall|p: Seq<Seq<u8>>| #[trigger]
            b.node_at(p) is Some implies keys_unique(b.node_at(p)->0.children()) by {
            if p.len() == 0 {
                a.lemma_root_unique();
            } else {
                assert(a.node_at(p) is Some);
            }
        }
    }

    /// Appends `subscription` to the node at the path spelled by `list`,
    /// creating the nodes on the way. The tokens are taken out of `list`.
    pub fn subscribe(&mut self, list: &mut Vec<Vec<u8>>, subscription: T)
        requires
            old(self).wf(),
        ensures
            final(self).wf(),
            final(list)@.len() == 0,
            forall|p: Seq<Seq<u8>>|
                #[trigger] final(self).lookup(p) == subscribed(
                    old(self).lookup(p),
                    p,
                    path_of(old(list)@),
                    subscription,
                ),
            fronted(*final(self), path_of(old(list)@)),
        decreases old(list)@.len(),
    {
        let ghost path = path_of(list@);
        if list.len() == 0 {
            self.inner.push(subscription);
            proof {
                assert(path =~= Seq::<Seq<u8>>::empty());
                Entry::lemma_same_children(*old(self), *self);
                assert forall|p: Seq<Seq<u8>>|
                    #[trigger] self.lookup(p) == subscribed(old(self).lookup(p), p, path, subscription) by {
                    if p.len() == 0 {
                        assert(p == path);
                    }
                }
            }
            return;
        }
        let key = list.remove(0);
        proof {
            assert(path_of(list@) =~= path.drop_first());
        }
        let ghost rest = path.drop_first();
        let ghost mut idx: int = 0;
        let ghost mut child: Entry<T> = *old(self);
        let ghost mut added = false;
        match self.search_mut_entry(key.as_slice()) {
            Some(entry) => {
                proof {
                    idx = key_index(old(self).children(), key@);
                    old(self).lemma_child_wf(idx);
                }
                entry.subscribe(list, subscription);
                proof {
                    child = *entry;
                }
            },
            None => {
                let mut entry = Entry::new();
                entry.subscribe(list, subscription);
                proof {
                    child = entry;
                    added = true;
                }
                self.next_level.insert(0, (key, entry));
            },
        }
        proof {
            if added {
                assert(self.children().drop_first() =~= old(self).children());
                Entry::lemma_child_added(*old(self), *self, key@, child);
            } else {
                Entry::lemma_child_replaced(*old(self), *self, idx, child);
            }
            self.lemma_root_unique();
            Entry::lemma_fronted_through(*self, path);
            assert forall|p: Seq<Seq<u8>>|
                #[trigger] self.lookup(p) == subscribed(old(self).lookup(p), p, path, subscription) by {
                if p.len() > 0 {
                    lemma_path_step(p, path);
                    if p[0] == key@ {
                        if added {
                            old(self).lemma_no_child(p);
                        } else {
                            old(self).lemma_root_unique();
                            old(self).lemma_child_step(idx, p);
                        }
                        assert(child.lookup(p.drop_first()) == subscribed(
                            old(self).lookup(p), p.drop_first(), rest, subscription));
                    }
                } else {
                    assert(p.is_prefix_of(path));
                }
            }
        }
    }

    proof fn lemma_same_lookups_all(a: Entry<T>)
        requires
            a.wf(),
        ensures
            forall|b: Entry<T>|
                b.children() == a.children() && b.inner == a.inner ==> #[trigger] same_lookups(a, b),
            forall|b: Entry<T>, v: Seq<T>|
                b.children() == a.children() && b.inner@ == v ==> #[trigger] updated_at(
                    a,
                    b,
                    Seq::empty(),
                    v,
                ),
    {
        assert forall|b: Entry<T>|
            b.children() == a.children() && b.inner == a.inner implies #[trigger] same_lookups(a, b) by {
            Entry::lemma_same_children(a, b);
            assert forall|p: Seq<Seq<u8>>| #[trigger] b.lookup(p) == a.lookup(p) by {
                if p.len() > 0 {
                    assert(b.node_at(p) == a.node_at(p));
                }
            }
        }
        assert forall|b: Entry<T>, v: Seq<T>|
            b.children() == a.children() && b.inner@ == v implies #[trigger] updated_at(
                a,
                b,
                Seq::empty(),
                v,
            ) by {
            Entry::lemma_same_children(a, b);
            assert forall|p: Seq<Seq<u8>>|
                #[trigger] b.lookup(p) == if p == Seq::<Seq<u8>>::empty() {
                    Some(v)
                } else {
                    a.lookup(p)
                } by {
                if p.len() > 0 {
                    assert(b.node_at(p) == a.node_at(p));
                } else {
                    assert(p =~= Seq::<Seq<u8>>::empty());
                }
            }
        }
    }

    /// An update below the child at `i`, seen from this node.
    /// The head child is on `path` and the path is fronted below it: the
    /// path is fronted from here.
    proof fn lemma_fronted_through(n: Entry<T>, path: Seq<Seq<u8>>)
        requires
            keys_unique(n.children()),
            path.len() > 0,
            n.children().len() > 0,
            n.children()[0].0@ == path[0],
            fronted(n.children()[0].1, path.drop_first()),
        ensures
            fronted(n, path),
    {
        assert forall|k: int| 0 <= k < path.len() implies {
            &&& #[trigger] n.node_at(path.subrange(0, k)) is Some
            &&& n.node_at(path.subrange(0, k))->0.children().len() > 0
            &&& n.node_at(path.subrange(0, k))->0.children()[0].0@ == path[k]
        } by {
            let q = path.subrange(0, k);
            if k == 0 {
                assert(q.len() == 0);
            } else {
                n.lemma_child_step(0, q);
                assert(q.drop_first() =~= path.drop_first().subrange(0, k - 1));
                assert(path.drop_first()[k - 1] == path[k]);
            }
        }
    }

    proof fn lemma_updated_through(old_e: Entry<T>, i: int, path: Seq<Seq<u8>>)
        requires
            old_e.wf(),
            0 <= i < old_e.children().len(),
            path.len() > 0,
            path[0] == old_e.children()[i].0@,
        ensures
            forall|n: Entry<T>, v: Seq<T>|
                n.inner == old_e.inner && n.children() == seq![
                    (old_e.children()[i].0, n.children()[0].1),
                ] + old_e.children().remove(i) && updated_at(
                    old_e.children()[i].1,
                    n.children()[0].1,
                    path.drop_first(),
                    v,
                ) && fronted(n.children()[0].1, path.drop_first()) ==> #[trigger] updated_at(
                    old_e,
                    n,
                    path,
                    v,
                ) && fronted(n, path),
            forall|n: Entry<T>|
                n.inner == old_e.inner && n.children() == seq![
                    (old_e.children()[i].0, n.children()[0].1),
                ] + old_e.children().remove(i) && same_lookups(
                    old_e.children()[i].1,
                    n.children()[0].1,
                ) ==> #[trigger] same_lookups(old_e, n),
    {
        let k = old_e.children()[i].0@;
        let oc = old_e.children()[i].1;
        assert forall|n: Entry<T>, v: Seq<T>|
            n.inner == old_e.inner && n.children() == seq![
                (old_e.children()[i].0, n.children()[0].1),
            ] + old_e.children().remove(i) && updated_at(
                oc,
                n.children()[0].1,
                path.drop_first(),
                v,
            ) && fronted(n.children()[0].1, path.drop_first()) implies #[trigger] updated_at(
                old_e,
                n,
                path,
                v,
            ) && fronted(n, path) by {
            let nc = n.children()[0].1;
            Entry::lemma_child_replaced(old_e, n, i, nc);
            old_e.lemma_root_unique();
            n.lemma_root_unique();
            Entry::lemma_fronted_through(n, path);
            assert forall|p: Seq<Seq<u8>>|
                #[trigger] n.lookup(p) == if p == path {
                    Some(v)
                } else {
                    old_e.lookup(p)
                } by {
                if p.len() > 0 {
                    lemma_path_step(p, path);
                    if p[0] == k {
                        old_e.lemma_child_step(i, p);
                        assert(nc.lookup(p.drop_first()) == if p.drop_first() == path.drop_first() {
                            Some(v)
                        } else {
                            oc.lookup(p.drop_first())
                        });
                    }
                } else {
                    assert(p != path);
                }
            }
        }
        assert forall|n: Entry<T>|
            n.inner == old_e.inner && n.children() == seq![
                (old_e.children()[i].0, n.children()[0].1),
            ] + old_e.children().remove(i) && same_lookups(
                oc,
                n.children()[0].1,
            ) implies #[trigger] same_lookups(old_e, n) by {
            let nc = n.children()[0].1;
            Entry::lemma_child_replaced(old_e, n, i, nc);
            old_e.lemma_root_unique();
            assert forall|p: Seq<Seq<u8>>| #[trigger] n.lookup(p) == old_e.lookup(p) by {
                if p.len() > 0 && p[0] == k {
                    old_e.lemma_child_step(i, p);
                    assert(nc.lookup(p.drop_first()) == oc.lookup(p.drop_first()));
                }
            }
        }
    }

    /// The subscriptions stored at the path spelled by `list`, for reading
    /// and changing in place; `None` where the trie has no node there.
    #[verifier::rlimit(30)]
    pub fn get_subscribe_item(&mut self, list: &mut Vec<Vec<u8>>) -> (r: Option<&mut Vec<T>>)
        requires
            old(self).wf(),
        ensures
            match r {
                Some(v) => {
                    &&& old(self).lookup(path_of(old(list)@)) == Some(v@)
                    &&& updated_at(*old(self), *final(self), path_of(old(list)@), final(v)@)
                    &&& fronted(*final(self), path_of(old(list)@))
                },
                None => {
                    &&& old(self).lookup(path_of(old(list)@)) is None
                    &&& same_lookups(*old(self), *final(self))
                },
            },
        decreases old(list)@.len(),
    {
        let ghost path = path_of(list@);
        if list.len() == 0 {
            proof {
                assert(path =~= Seq::<Seq<u8>>::empty());
                Entry::lemma_same_lookups_all(*old(self));
            }
            return Some(&mut self.inner);
        }
        let key = list.remove(0);
        proof {
            assert(path_of(list@) =~= path.drop_first());
        }
        match self.search_mut_entry(key.as_slice()) {
            Some(entry) => {
                let ghost idx = key_index(old(self).children(), key@);
                proof {
                    old(self).lemma_child_wf(idx);
                    old(self).lemma_root_unique();
                    Entry::lemma_updated_through(*old(self), idx, path);
                    old(self).lemma_child_step(idx, path);
                }
                entry.get_subscribe_item(list)
            },
            None => {
                proof {
                    old(self).lemma_no_child(path);
                    Entry::lemma_same_lookups_all(*old(self));
                }
                None
            },
        }
    }

    /// A node whose inner list and children were filtered one by one.
    proof fn lemma_filtered_from_children<F: Fn(&T) -> bool>(old_e: Entry<T>, new_e: Entry<T>, f: F)
        requires
            old_e.wf(),
            new_e.inner@ == kept_by(old_e.inner@, f),
            all_asked(old_e.inner@, f),
            new_e.children().len() == old_e.children().len(),
            forall|j: int|
                0 <= j < old_e.children().len() ==> (#[trigger] new_e.children()[j]).0
                    == old_e.children()[j].0 && filtered(old_e.children()[j].1, new_e.children()[j].1, f),
        ensures
            filtered(old_e, new_e, f),
    {
        old_e.lemma_root_unique();
        let och = old_e.children();
        let nch = new_e.children();
        assert(keys_unique(nch)) by {
            assert forall|a: int, b: int|
                0 <= a < nch.len() && 0 <= b < nch.len() && #[trigger] nch[a].0@ == #[trigger] nch[b].0@ implies a == b by {
                assert(nch[a].0 == och[a].0);
                assert(nch[b].0 == och[b].0);
            }
        }
        assert forall|j: int| 0 <= j < nch.len() implies (#[trigger] nch[j]).1.wf() by {
            assert(filtered(och[j].1, nch[j].1, f));
        }
        new_e.lemma_wf_from_children();
        assert forall|p: Seq<Seq<u8>>|
            #[trigger] new_e.lookup(p) == match old_e.lookup(p) {
                Some(s) => Some(kept_by(s, f)),
                None => None,
            } by {
            if p.len() > 0 {
                if exists|j: int| has_key_at(och, p[0], j) {
                    let j = choose|j: int| has_key_at(och, p[0], j);
                    assert(nch[j].0 == och[j].0);
                    old_e.lemma_child_step(j, p);
                    new_e.lemma_child_step(j, p);
                    assert(filtered(och[j].1, nch[j].1, f));
                    assert(nch[j].1.lookup(p.drop_first()) == match och[j].1.lookup(p.drop_first()) {
                        Some(s) => Some(kept_by(s, f)),
                        None => None,
                    });
                    assert(och[j].1.lookup(p.drop_first()) is Some ==> all_asked(och[j].1.lookup(p.drop_first())->0, f));
                } else {
                    assert forall|j: int| 0 <= j < nch.len() implies nch[j].0@ != p[0] by {
                        assert(nch[j].0 == och[j].0);
                        assert(!has_key_at(och, p[0], j));
                    }
                    assert forall|j: int| 0 <= j < och.len() implies och[j].0@ != p[0] by {
                        assert(!has_key_at(och, p[0], j));
                    }
                    old_e.lemma_no_child(p);
                    new_e.lemma_no_child(p);
                }
            } else {
                assert(old_e.lookup(p) == Some(old_e.inner@));
                assert(new_e.lookup(p) == Some(new_e.inner@));
            }
        }
        assert forall|p: Seq<Seq<u8>>| #[trigger]
            old_e.lookup(p) is Some implies all_asked(old_e.lookup(p)->0, f) by {
            if p.len() > 0 {
                let j = choose|j: int| has_key_at(och, p[0], j);
                old_e.lemma_child_step(j, p);
                assert(filtered(och[j].1, nch[j].1, f));
                assert(och[j].1.lookup(p.drop_first()) is Some);
            } else {
                assert(old_e.lookup(p) == Some(old_e.inner@));
            }
        }
    }

    /// Removes, from every node, each subscription on which
    /// `remove_condition` answers `true`.
    pub fn remove_subscription<F: Fn(&T) -> bool>(&mut self, remove_condition: &F)
        requires
            old(self).wf(),
            decides(*remove_condition),
        ensures
            filtered(*old(self), *final(self), *remove_condition),
        decreases *old(self),
    {
        retain_by(&mut self.inner, remove_condition);
        let mut i: usize = 0;
        while i < self.next_level.len()
            invariant
                old(self).wf(),
                decides(*remove_condition),
                self.inner@ == kept_by(old(self).inner@, *remove_condition),
                all_asked(old(self).inner@, *remove_condition),
                0 <= i <= self.next_level@.len(),
                self.next_level@.len() == old(self).next_level@.len(),
                forall|j: int|
                    0 <= j < self.next_level@.len() ==> (#[trigger] self.next_level@[j]).0
                        == old(self).next_level@[j].0,
                forall|j: int|
                    0 <= j < i ==> filtered(
                        old(self).next_level@[j].1,
                        (#[trigger] self.next_level@[j]).1,
                        *remove_condition,
                    ),
                forall|j: int|
                    i <= j < self.next_level@.len() ==> #[trigger] self.next_level@[j]
                        == old(self).next_level@[j],
            decreases self.next_level@.len() - i,
        {
            proof {
                old(self).lemma_child_wf(i as int);
                assert(decreases_to!(*old(self) => old(self).next_level));
                assert(decreases_to!(old(self).next_level => old(self).next_level@));
                assert(decreases_to!(old(self).next_level@ => old(self).next_level@[i as int]));
            }
            let pair = &mut self.next_level[i];
            pair.1.remove_subscription(remove_condition);
            i = i + 1;
        }
        proof {
            Entry::lemma_filtered_from_children(*old(self), *self, *remove_condition);
        }
    }

    /// A node whose inner list and children were mapped one by one.
    proof fn lemma_mapped_from_children<F: Fn(T) -> T>(old_e: Entry<T>, new_e: Entry<T>, f: F)
        requires
            old_e.wf(),
            mapped_by(old_e.inner@, new_e.inner@, f),
            new_e.children().len() == old_e.children().len(),
            forall|j: int|
                0 <= j < old_e.children().len() ==> (#[trigger] new_e.children()[j]).0
                    == old_e.children()[j].0 && mapped(old_e.children()[j].1, new_e.children()[j].1, f),
        ensures
            mapped(old_e, new_e, f),
    {
        old_e.lemma_root_unique();
        let och = old_e.children();
        let nch = new_e.children();
        assert(keys_unique(nch)) by {
            assert forall|a: int, b: int|
                0 <= a < nch.len() && 0 <= b < nch.len() && #[trigger] nch[a].0@ == #[trigger] nch[b].0@ implies a == b by {
                assert(nch[a].0 == och[a].0);
                assert(nch[b].0 == och[b].0);
            }
        }
        assert forall|j: int| 0 <= j < nch.len() implies (#[trigger] nch[j]).1.wf() by {
            assert(mapped(och[j].1, nch[j].1, f));
        }
        new_e.lemma_wf_from_children();
        assert forall|p: Seq<Seq<u8>>|
            (#[trigger] new_e.lookup(p) is Some == old_e.lookup(p) is Some) && (old_e.lookup(p) is Some
                ==> mapped_by(old_e.lookup(p)->0, new_e.lookup(p)->0, f)) by {
            if p.len() > 0 {
                if exists|j: int| has_key_at(och, p[0], j) {
                    let j = choose|j: int| has_key_at(och, p[0], j);
                    assert(nch[j].0 == och[j].0);
                    old_e.lemma_child_step(j, p);
                    new_e.lemma_child_step(j, p);
                    assert(mapped(och[j].1, nch[j].1, f));
                    assert(nch[j].1.lookup(p.drop_first()) is Some == och[j].1.lookup(p.drop_first()) is Some);
                    assert(och[j].1.lookup(p.drop_first()) is Some ==> mapped_by(och[j].1.lookup(p.drop_first())->0, nch[j].1.lookup(p.drop_first())->0, f));
                } else {
                    assert forall|j: int| 0 <= j < nch.len() implies nch[j].0@ != p[0] by {
                        assert(nch[j].0 == och[j].0);
                        assert(!has_key_at(och, p[0], j));
                    }
                    assert forall|j: int| 0 <= j < och.len() implies och[j].0@ != p[0] by {
                        assert(!has_key_at(och, p[0], j));
                    }
                    old_e.lemma_no_child(p);
                    new_e.lemma_no_child(p);
                }
            } else {
                assert(old_e.lookup(p) == Some(old_e.inner@));
                assert(new_e.lookup(p) == Some(new_e.inner@));
            }
        }
        assert forall|p: Seq<Seq<u8>>| #[trigger] old_e.lookup(p) is Some implies mapped_by(
            old_e.lookup(p)->0,
            new_e.lookup(p)->0,
            f,
        ) by {
            assert(new_e.lookup(p) is Some == old_e.lookup(p) is Some);
        }
    }

    /// Replaces every subscription `x`, in every node, by `f(x)`.
    pub fn update_subscription<F: Fn(T) -> T>(&mut self, f: &F)
        requires
            old(self).wf(),
            forall|x: T| f.requires((x,)),
        ensures
            mapped(*old(self), *final(self), *f),
        decreases *old(self),
    {
        map_in_place(&mut self.inner, f);
        let mut i: usize = 0;
        while i < self.next_level.len()
            invariant
                old(self).wf(),
                forall|x: T| f.requires((x,)),
                mapped_by(old(self).inner@, self.inner@, *f),
                0 <= i <= self.next_level@.len(),
                self.next_level@.len() == old(self).next_level@.len(),
                forall|j: int|
                    0 <= j < self.next_level@.len() ==> (#[trigger] self.next_level@[j]).0
                        == old(self).next_level@[j].0,
                forall|j: int|
                    0 <= j < i ==> mapped(
                        old(self).next_level@[j].1,
                        (#[trigger] self.next_level@[j]).1,
                        *f,
                    ),
                forall|j: int|
                    i <= j < self.next_level@.len() ==> #[trigger] self.next_level@[j]
                        == old(self).next_level@[j],
            decreases self.next_level@.len() - i,
        {
            proof {
                old(self).lemma_child_wf(i as int);
                assert(decreases_to!(*old(self) => old(self).next_level));
                assert(decreases_to!(old(self).next_level => old(self).next_level@));
                assert(decreases_to!(old(self).next_level@ => old(self).next_level@[i as int]));
            }
            let pair = &mut self.next_level[i];
            pair.1.update_subscription(f);
            i = i + 1;
        }
        proof {
            Entry::lemma_mapped_from_children(*old(self), *self, *f);
        }
    }

    /// The number of leaf nodes of the trie below this node (this node, if
    /// it has no children).
    pub closed spec fn leaves(self) -> nat
        decreases self,
    {
        if self.next_level@.len() == 0 {
            1
        } else {
            children_leaves(self.next_level@)
        }
    }

    /// The number of leaf nodes below this node, or `usize::MAX` if there
    /// are more.
    pub fn total(&self) -> (r: usize)
        ensures
            r == min_usize(self.leaves()),
        decreases self,
    {
        if self.next_level.len() == 0 {
            return 1;
        }
        let mut sum: usize = 0;
        let mut i: usize = 0;
        while i < self.next_level.len()
            invariant
                0 <= i <= self.next_level@.len(),
                sum == min_usize(children_leaves(self.next_level@.subrange(0, i as int))),
            decreases self.next_level@.len() - i,
        {
            let ghost pre = self.next_level@.subrange(0, i as int + 1);
            proof {
                assert(pre.drop_last() =~= self.next_level@.subrange(0, i as int));
                assert(pre.last() == self.next_level@[i as int]);
                assert(decreases_to!(*self => self.next_level));
                assert(decreases_to!(self.next_level => self.next_level@));
                assert(decreases_to!(self.next_level@ => self.next_level@[i as int]));
            }
            let child_total = self.next_level[i].1.total();
            sum = sum.saturating_add(child_total);
            i = i + 1;
        }
        proof {
            assert(self.next_level@.subrange(0, self.next_level@.len() as int) =~= self.next_level@);
        }
        sum
    }

    /// Removing the child at `i`: its subtree is gone, the rest is kept.
    proof fn lemma_child_removed(old_e: Entry<T>, i: int)
        requires
            old_e.wf(),
            0 <= i < old_e.children().len(),
        ensures
            forall|n: Entry<T>| #![trigger n.children()]
                n.inner == old_e.inner && n.children() == old_e.children().remove(i) ==> pruned_at(
                    old_e,
                    n,
                    seq![old_e.children()[i].0@],
                ),
    {
        let ch = old_e.children();
        let k = ch[i].0@;
        let path = seq![k];
        old_e.lemma_root_unique();
        lemma_unique_remove(ch, i);
        assert forall|n: Entry<T>|
            n.inner == old_e.inner && n.children() == old_e.children().remove(i) implies pruned_at(
                old_e,
                n,
                path,
            ) by {
            let rest = n.children();
            assert forall|j: int| 0 <= j < rest.len() implies (#[trigger] rest[j]).1.wf() by {
                let j2 = if j < i { j } else { j + 1 };
                assert(rest[j] == ch[j2]);
                old_e.lemma_child_wf(j2);
            }
            n.lemma_wf_from_children();
            assert forall|p: Seq<Seq<u8>>|
                #[trigger] n.lookup(p) == if path.len() > 0 && path.is_prefix_of(p) {
                    None
                } else {
                    old_e.lookup(p)
                } by {
                if p.len() > 0 {
                    if p[0] == k {
                        assert(path.is_prefix_of(p)) by {
                            assert(p.subrange(0, 1) =~= path);
                        }
                        assert forall|j: int| 0 <= j < rest.len() implies rest[j].0@ != p[0] by {}
                        n.lemma_no_child(p);
                    } else {
                        assert(!path.is_prefix_of(p)) by {
                            if path.is_prefix_of(p) {
                                assert(p.subrange(0, 1)[0] == p[0]);
                            }
                        }
                        if exists|j: int| has_key_at(rest, p[0], j) {
                            let j = choose|j: int| has_key_at(rest, p[0], j);
                            let j2 = if j < i { j } else { j + 1 };
                            assert(rest[j] == ch[j2]);
                            n.lemma_child_step(j, p);
                            old_e.lemma_child_step(j2, p);
                        } else {
                            assert forall|j: int| 0 <= j < ch.len() implies ch[j].0@ != p[0] by {
                                if j != i {
                                    let j1 = if j < i { j } else { j - 1 };
                                    assert(rest[j1] == ch[j]);
                                    assert(!has_key_at(rest, p[0], j1));
                                }
                            }
                            assert forall|j: int| 0 <= j < rest.len() implies rest[j].0@ != p[0] by {
                                assert(!has_key_at(rest, p[0], j));
                            }
                            n.lemma_no_child(p);
                            old_e.lemma_no_child(p);
                        }
                    }
                } else {
                    assert(!path.is_prefix_of(p));
                }
            }
        }
    }

    /// Pruning below the child at `i`, seen from this node.
    proof fn lemma_pruned_through(old_e: Entry<T>, i: int, path: Seq<Seq<u8>>)
        requires
            old_e.wf(),
            0 <= i < old_e.children().len(),
            path.len() > 1,
            path[0] == old_e.children()[i].0@,
        ensures
            forall|n: Entry<T>|
                n.inner == old_e.inner && n.children() == seq![
                    (old_e.children()[i].0, n.children()[0].1),
                ] + old_e.children().remove(i) && pruned_at(
                    old_e.children()[i].1,
                    n.children()[0].1,
                    path.drop_first(),
                ) ==> #[trigger] pruned_at(old_e, n, path),
    {
        let k = old_e.children()[i].0@;
        let oc = old_e.children()[i].1;
        assert forall|n: Entry<T>|
            n.inner == old_e.inner && n.children() == seq![
                (old_e.children()[i].0, n.children()[0].1),
            ] + old_e.children().remove(i) && pruned_at(
                oc,
                n.children()[0].1,
                path.drop_first(),
            ) implies #[trigger] pruned_at(old_e, n, path) by {
            let nc = n.children()[0].1;
            Entry::lemma_child_replaced(old_e, n, i, nc);
            old_e.lemma_root_unique();
            assert forall|p: Seq<Seq<u8>>|
                #[trigger] n.lookup(p) == if path.len() > 0 && path.is_prefix_of(p) {
                    None
                } else {
                    old_e.lookup(p)
                } by {
                if p.len() > 0 {
                    lemma_path_step(path, p);
                    if p[0] == k {
                        old_e.lemma_child_step(i, p);
                        assert(nc.lookup(p.drop_first()) == if path.drop_first().len() > 0
                            && path.drop_first().is_prefix_of(p.drop_first()) {
                            None
                        } else {
                            oc.lookup(p.drop_first())
                        });
                    }
                } else {
                    assert(!path.is_prefix_of(p));
                }
            }
        }
    }

    /// Removes the node at the path spelled by `list`, with everything
    /// below it. The tokens are taken out of `list`.
    pub fn remove(&mut self, list: &mut Vec<Vec<u8>>)
        requires
            old(self).wf(),
        ensures
            pruned_at(*old(self), *final(self), path_of(old(list)@)),
        decreases old(list)@.len(),
    {
        let ghost path = path_of(list@);
        if list.len() == 0 {
            proof {
                assert(path =~= Seq::<Seq<u8>>::empty());
                Entry::lemma_same_children(*old(self), *self);
                assert forall|p: Seq<Seq<u8>>| #[trigger] self.lookup(p) == old(self).lookup(p) by {
                    if p.len() > 0 {
                        assert(self.node_at(p) == old(self).node_at(p));
                    }
                }
            }
            return;
        }
        let key = list.remove(0);
        proof {
            assert(path_of(list@) =~= path.drop_first());
            old(self).lemma_root_unique();
        }
        if list.len() == 0 {
            let is_key = |item: &(Vec<u8>, Entry<T>)| -> (b: bool)
                ensures
                    b == (item.0@ =~= key@),
                { same_bytes(item.0.as_slice(), key.as_slice()) };
            remove_first(&mut self.next_level, is_key);
            proof {
                assert(path =~= seq![key@]);
                if exists|i: int|
                    {
                        &&& 0 <= i < old(self).next_level@.len()
                        &&& is_key.ensures((&old(self).next_level@[i],), true)
                        &&& forall|j: int|
                            0 <= j < i ==> is_key.ensures((&old(self).next_level@[j],), false)
                        &&& self.next_level@ == old(self).next_level@.remove(i)
                    } {
                    let i = choose|i: int|
                        {
                            &&& 0 <= i < old(self).next_level@.len()
                            &&& is_key.ensures((&old(self).next_level@[i],), true)
                            &&& forall|j: int|
                                0 <= j < i ==> is_key.ensures((&old(self).next_level@[j],), false)
                            &&& self.next_level@ == old(self).next_level@.remove(i)
                        };
                    Entry::lemma_child_removed(*old(self), i);
                    assert(self.children() == old(self).children().remove(i));
                } else {
                    Entry::lemma_same_children(*old(self), *self);
                    assert forall|p: Seq<Seq<u8>>|
                        #[trigger] self.lookup(p) == if path.len() > 0 && path.is_prefix_of(p) {
                            None
                        } else {
                            old(self).lookup(p)
                        } by {
                        if p.len() > 0 {
                            assert(self.node_at(p) == old(self).node_at(p));
                            if path.is_prefix_of(p) {
                                assert(p.subrange(0, 1)[0] == p[0]);
                                assert(p.subrange(0, 1) =~= path);
                                assert forall|j: int| 0 <= j < old(self).children().len() implies old(
                                    self,
                                ).children()[j].0@ != p[0] by {}
                                old(self).lemma_no_child(p);
                            }
                        } else {
                            assert(!path.is_prefix_of(p));
                        }
                    }
                }
            }
            return;
        }
        match self.search_mut_entry(key.as_slice()) {
            Some(entry) => {
                let ghost idx = key_index(old(self).children(), key@);
                proof {
                    old(self).lemma_child_wf(idx);
                    Entry::lemma_pruned_through(*old(self), idx, path);
                }
                entry.remove(list);
            },
            None => {
                proof {
                    assert forall|p: Seq<Seq<u8>>| path.is_prefix_of(p) implies #[trigger] old(
                        self,
                    ).lookup(p) is None by {
                        assert(p.subrange(0, path.len() as int) =~= path);
                        assert(path[0] == p.subrange(0, path.len() as int)[0]);
                        old(self).lemma_no_child(p);
                    }
                    Entry::lemma_pruned_nothing(*old(self), path);
                }
            },
        }
    }

    /// Pruning where nothing is stored leaves every list as it was.
    proof fn lemma_pruned_nothing(a: Entry<T>, path: Seq<Seq<u8>>)
        requires
            a.wf(),
            forall|p: Seq<Seq<u8>>| path.is_prefix_of(p) ==> #[trigger] a.lookup(p) is None,
        ensures
            forall|r: Entry<T>|
                r.children() == a.children() && r.inner == a.inner ==> #[trigger] pruned_at(a, r, path),
    {
        assert forall|r: Entry<T>|
            r.children() == a.children() && r.inner == a.inner implies #[trigger] pruned_at(a, r, path) by {
            Entry::lemma_same_children(a, r);
            assert forall|p: Seq<Seq<u8>>|
                #[trigger] r.lookup(p) == if path.len() > 0 && path.is_prefix_of(p) {
                    None
                } else {
                    a.lookup(p)
                } by {
                if p.len() > 0 {
                    assert(r.node_at(p) == a.node_at(p));
                }
            }
        }
    }

    pub fn new() -> (r: Self)
        ensures
            r.wf(),
            r.lookup(Seq::empty()) == Some(Seq::<T>::empty()),
            forall|p: Seq<Seq<u8>>| p.len() > 0 ==> #[trigger] r.lookup(p) is None,
            r.children().len() == 0,
            r.leaves() == 1,
    {
        let r = Entry { inner: Vec::new(), next_level: Vec::new() };
        assert forall|p: Seq<Seq<u8>>| p.len() > 0 implies #[trigger] r.node_at(p) is None by {
            r.lemma_no_child(p);
        }
        assert forall|p: Seq<Seq<u8>>| #[trigger]
            r.node_at(p) is Some implies keys_unique(r.node_at(p)->0.children()) by {
            if p.len() > 0 {
                r.lemma_no_child(p);
            }
        }
        r
    }
}

} // verus!

verus! {

/// The token separator of a subject.
pub const DOT: u8 = 0x2e;

/// The tokens of a subject: the runs of bytes between dots, empty runs
/// included.
pub open spec fn split_tokens(s: Seq<u8>) -> Seq<Seq<u8>>
    decreases s.len(),
{
    if s.len() == 0 {
        seq![Seq::empty()]
    } else {
        let prev = split_tokens(s.drop_last());
        if s.last() == DOT {
            prev.push(Seq::empty())
        } else {
            prev.update(prev.len() - 1, prev.last().push(s.last()))
        }
    }
}

/// The subscription index: subjects are split on dots and looked up in a
/// trie of tokens.
pub struct SubList<T> {
    root: Entry<T>,
}

impl<T> SubList<T> {
    /// The trie itself.
    pub closed spec fn entry(self) -> Entry<T> {
        self.root
    }

    /// What is stored under the tokens `path`.
    pub open spec fn lookup(self, path: Seq<Seq<u8>>) -> Option<Seq<T>> {
        self.entry().lookup(path)
    }

    pub open spec fn wf(self) -> bool {
        self.entry().wf()
    }

    pub fn new() -> (r: Self)
        ensures
            r.wf(),
            r.lookup(Seq::empty()) == Some(Seq::<T>::empty()),
            forall|p: Seq<Seq<u8>>| p.len() > 0 ==> #[trigger] r.lookup(p) is None,
            r.entry().leaves() == 1,
    {
        SubList { root: Entry::new() }
    }

    /// Splits a subject into its dot-separated tokens.
    pub fn split(key: &[u8]) -> (r: Vec<Vec<u8>>)
        ensures
            path_of(r@) == split_tokens(key@),
    {
        let mut tokens: Vec<Vec<u8>> = Vec::new();
        let mut current: Vec<u8> = Vec::new();
        let mut i: usize = 0;
        while i < key.len()
            invariant
                0 <= i <= key@.len(),
                path_of(tokens@).push(current@) == split_tokens(key@.subrange(0, i as int)),
            decreases key@.len() - i,
        {
            let ghost prefix = key@.subrange(0, i as int + 1);
            proof {
                assert(prefix.drop_last() =~= key@.subrange(0, i as int));
                assert(prefix.last() == key@[i as int]);
            }
            if key[i] == DOT {
                tokens.push(current);
                current = Vec::new();
                proof {
                    assert(path_of(tokens@).push(current@) =~= split_tokens(prefix));
                }
            } else {
                current.push(key[i]);
                proof {
                    assert(path_of(tokens@).push(current@) =~= split_tokens(prefix));
                }
            }
            i = i + 1;
        }
        tokens.push(current);
        proof {
            assert(key@.subrange(0, key@.len() as int) =~= key@);
            assert(path_of(tokens@) =~= split_tokens(key@));
        }
        tokens
    }

    /// Adds `subscription` at the end of the list of `sub`.
    pub fn subscribe(&mut self, sub: &[u8], subscription: T)
        requires
            old(self).wf(),
        ensures
            final(self).wf(),
            forall|p: Seq<Seq<u8>>|
                #[trigger] final(self).lookup(p) == subscribed(
                    old(self).lookup(p),
                    p,
                    split_tokens(sub@),
                    subscription,
                ),
            fronted(final(self).entry(), split_tokens(sub@)),
    {
        let mut list = Self::split(sub);
        self.root.subscribe(&mut list, subscription);
    }

    /// The subscriptions of `sub`, in the order they were made, for reading
    /// and changing in place; `None` where the trie has no node for `sub`.
    pub fn get_subscribe_item(&mut self, sub: &[u8]) -> (r: Option<&mut Vec<T>>)
        requires
            old(self).wf(),
        ensures
            match r {
                Some(v) => {
                    &&& old(self).lookup(split_tokens(sub@)) == Some(v@)
                    &&& updated_at(old(self).entry(), final(self).entry(), split_tokens(sub@), final(v)@)
                    &&& fronted(final(self).entry(), split_tokens(sub@))
                },
                None => {
                    &&& old(self).lookup(split_tokens(sub@)) is None
                    &&& same_lookups(old(self).entry(), final(self).entry())
                },
            },
    {
        let mut list = Self::split(sub);
        self.root.get_subscribe_item(&mut list)
    }

    /// Removes every subscription on which `remove_condition` answers `true`.
    pub fn remove_subscription<F: Fn(&T) -> bool>(&mut self, remove_condition: F)
        requires
            old(self).wf(),
            decides(remove_condition),
        ensures
            filtered(old(self).entry(), final(self).entry(), remove_condition),
    {
        self.root.remove_subscription(&remove_condition);
    }

    /// Removes the node of `sub`, with every subscription at or below it.
    pub fn remove(&mut self, sub: &[u8])
        requires
            old(self).wf(),
        ensures
            pruned_at(old(self).entry(), final(self).entry(), split_tokens(sub@)),
    {
        let mut list = Self::split(sub);
        self.root.remove(&mut list);
    }

    /// The number of leaf nodes of the trie, or `usize::MAX` if there are
    /// more.
    pub fn total(&self) -> (r: usize)
        ensures
            r == min_usize(self.entry().leaves()),
    {
        self.root.total()
    }

    /// Replaces every subscription `x` by `f(x)`.
    pub fn update_subscription<F: Fn(T) -> T>(&mut self, f: F)
        requires
            old(self).wf(),
            forall|x: T| f.requires((x,)),
        ensures
            mapped(old(self).entry(), final(self).entry(), f),
    {
        self.root.update_subscription(&f);
    }
}

} // verus!
