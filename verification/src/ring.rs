//! Rings: doubly linked cycles of identifiers, many of them in one table.
//!
//! A ring hangs on a *base* (the key of a vertex, a directed edge or an
//! oriented triangle) and holds the identifiers of the vertices that complete
//! the base to a simplex of the next dimension. Each member stores the member
//! before it and the member after it, so that a step along the ring, a splice
//! and an unsplice each take constant time.

use vstd::prelude::*;
use crate::table::Table;
use crate::key::{push, front, last, make, lemma_push, lemma_front_last, BASE_LIMIT};

verus! {

broadcast use vstd::std_specs::hash::group_hash_axioms;
/// The two neighbours of a ring member.
#[derive(Clone, Copy, Debug)]
pub struct Link {
    /// The member before this one.
    pub prev: u32,
    /// The member after this one.
    pub next: u32,
}

/// Index after `i` in a cycle of `n` places.
pub open spec fn succ(i: int, n: int) -> int {
    if i + 1 >= n {
        0
    } else {
        i + 1
    }
}

/// Index before `i` in a cycle of `n` places.
pub open spec fn pred(i: int, n: int) -> int {
    if i <= 0 {
        n - 1
    } else {
        i - 1
    }
}

/// The ring `r` after `m` took the first place and the former first member
/// moved to the end: in cyclic order `m` stands right behind the former first.
pub open spec fn with_new_first(r: Seq<u32>, m: u32) -> Seq<u32> {
    seq![m] + r.subrange(1, r.len() as int) + seq![r[0]]
}

/// The ring `r` after `m` joined it: alone in an empty ring, else right behind
/// the first member, and as the new first member where `lead` is set.
pub open spec fn added(r: Seq<u32>, m: u32, lead: bool) -> Seq<u32> {
    if r.len() == 0 {
        seq![m]
    } else if lead {
        with_new_first(r, m)
    } else {
        r.insert(1, m)
    }
}

/// The ring `r` after `m` left it.
pub open spec fn dropped(r: Seq<u32>, m: u32) -> Seq<u32> {
    if r.contains(m) {
        r.remove(r.index_of(m))
    } else {
        r
    }
}

/// Whether `x` stands before `y` in `r`.
pub open spec fn before_in(r: Seq<u32>, x: u32, y: u32) -> bool {
    exists|p: int, q: int| 0 <= p < q < r.len() && r[p] == x && r[q] == y
}

/// Whether the members of `post` stand in the order in which they stand in
/// `pre`.
pub open spec fn keeps_order(pre: Seq<u32>, post: Seq<u32>) -> bool {
    forall|i: int, j: int|
        0 <= i < j < post.len() ==> before_in(pre, #[trigger] post[i], #[trigger] post[j])
}

/// A ring keeps its own order.
pub proof fn lemma_keeps_order_same(r: Seq<u32>)
    ensures
        keeps_order(r, r),
{
    assert forall|i: int, j: int| 0 <= i < j < r.len() implies before_in(
        r,
        #[trigger] r[i],
        #[trigger] r[j],
    ) by {
        assert(0 <= i < j < r.len() && r[i] == r[i] && r[j] == r[j]);
    }
}

/// What keeps the order of a ring that keeps the order of another keeps the
/// order of that other.
pub proof fn lemma_keeps_order_chain(a: Seq<u32>, b: Seq<u32>, c: Seq<u32>)
    requires
        keeps_order(a, b),
        keeps_order(b, c),
    ensures
        keeps_order(a, c),
{
    assert forall|i: int, j: int| 0 <= i < j < c.len() implies before_in(
        a,
        #[trigger] c[i],
        #[trigger] c[j],
    ) by {
        assert(before_in(b, c[i], c[j]));
        let (p, q) = choose|p: int, q: int| 0 <= p < q < b.len() && b[p] == c[i] && b[q] == c[j];
        assert(before_in(a, b[p], b[q]));
    }
}

/// A ring that a member left keeps its order.
pub proof fn lemma_dropped_keeps_order(r: Seq<u32>, m: u32)
    ensures
        keeps_order(r, dropped(r, m)),
{
    if r.contains(m) {
        let k = r.index_of(m);
        let d = dropped(r, m);
        assert forall|i: int, j: int| 0 <= i < j < d.len() implies before_in(
            r,
            #[trigger] d[i],
            #[trigger] d[j],
        ) by {
            let p = if i < k {
                i
            } else {
                i + 1
            };
            let q = if j < k {
                j
            } else {
                j + 1
            };
            assert(0 <= p < q < r.len() && r[p] == d[i] && r[q] == d[j]);
        }
    } else {
        lemma_keeps_order_same(r);
    }
}

/// Joining a ring adds one member and nothing else, and keeps the ring free
/// of repetitions.
pub proof fn lemma_added(r: Seq<u32>, m: u32, lead: bool)
    requires
        r.no_duplicates(),
        !r.contains(m),
    ensures
        added(r, m, lead).no_duplicates(),
        added(r, m, lead).len() == r.len() + 1,
        forall|x: u32| #[trigger] added(r, m, lead).contains(x) <==> r.contains(x) || x == m,
{
    let r2 = added(r, m, lead);
    let n = r.len() as int;
    if n == 0 {
        assert(r2[0] == m);
    } else if lead {
        assert(r2[0] == m);
        assert(r2[n] == r[0]);
        assert forall|j: int| 1 <= j < n implies r2[j] == r[j] by {}
        assert forall|x: u32| #[trigger] r2.contains(x) <==> r.contains(x) || x == m by {
            if r.contains(x) {
                let j = choose|j: int| 0 <= j < r.len() && r[j] == x;
                assert(r2[if j == 0 {
                    n
                } else {
                    j
                }] == x);
            }
        }
    } else {
        assert(r2[1] == m);
        assert forall|x: u32| #[trigger] r2.contains(x) <==> r.contains(x) || x == m by {
            if r.contains(x) {
                let j = choose|j: int| 0 <= j < r.len() && r[j] == x;
                assert(r2[if j == 0 {
                    0
                } else {
                    j + 1
                }] == x);
            }
            if r2.contains(x) && x != m {
                let j = choose|j: int| 0 <= j < r2.len() && r2[j] == x;
                assert(r[if j == 0 {
                    0
                } else {
                    j - 1
                }] == x);
            }
        }
        assert forall|x: int, y: int|
            0 <= x < r2.len() && 0 <= y < r2.len() && x != y implies r2[x] != r2[y] by {
            let x0 = if x == 0 {
                0
            } else {
                x - 1
            };
            let y0 = if y == 0 {
                0
            } else {
                y - 1
            };
            if x != 1 && y != 1 {
                assert(r2[x] == r[x0] && r2[y] == r[y0]);
            } else if x != 1 {
                assert(r2[x] == r[x0]);
            } else {
                assert(r2[y] == r[y0]);
            }
        }
    }
}

/// Leaving a ring takes one member away and nothing else, and keeps the ring
/// free of repetitions.
pub proof fn lemma_dropped(r: Seq<u32>, m: u32)
    requires
        r.no_duplicates(),
        r.contains(m),
    ensures
        dropped(r, m).no_duplicates(),
        dropped(r, m).len() == r.len() - 1,
        forall|x: u32| #[trigger] dropped(r, m).contains(x) <==> r.contains(x) && x != m,
        forall|i: int| 0 <= i < r.len() && r[i] == m ==> dropped(r, m) == r.remove(i),
{
    let i = r.index_of(m);
    let r2 = dropped(r, m);
    assert forall|j: int| 0 <= j < r.len() - 1 implies r2[j] == r[if j < i {
        j
    } else {
        j + 1
    }] by {}
    assert forall|x: u32| #[trigger] r2.contains(x) <==> r.contains(x) && x != m by {
        if r.contains(x) && x != m {
            let j = choose|j: int| 0 <= j < r.len() && r[j] == x;
            assert(r2[if j < i {
                j
            } else {
                j - 1
            }] == x);
        }
    }
}

// What the link of the member at place `j` of `r` is once `m` stands right
// behind the member at place `i`.
spec fn spliced_node(r: Seq<u32>, i: int, m: u32, j: int, l: Link) -> bool {
    let n = r.len() as int;
    &&& l.prev == if j == succ(i, n) {
        m
    } else {
        r[pred(j, n)]
    }
    &&& l.next == if j == i {
        m
    } else {
        r[succ(j, n)]
    }
}

/// A table of rings.
///
/// Its view maps each base that has a ring to the members of that ring, in
/// ring order. A ring in the view is never empty and holds no member twice.
#[derive(Clone)]
pub struct LinkTable {
    links: Table<u128, Link>,
    rings: Ghost<Map<u128, Seq<u32>>>,
}

impl View for LinkTable {
    type V = Map<u128, Seq<u32>>;

    closed spec fn view(&self) -> Map<u128, Seq<u32>> {
        self.rings@
    }
}

impl LinkTable {
    /// The ring at `base`; empty where the base has none.
    pub open spec fn ring(&self, base: u128) -> Seq<u32> {
        if self@.contains_key(base) {
            self@[base]
        } else {
            Seq::empty()
        }
    }

    /// What every ring of the view satisfies.
    pub open spec fn rings_ok(&self) -> bool {
        forall|b: u128| #[trigger]
            self@.contains_key(b) ==> b < BASE_LIMIT && self@[b].len() > 0
                && self@[b].no_duplicates()
    }

    spec fn node_ok(&self, b: u128, i: int) -> bool {
        let r = self.rings@[b];
        let k = push(b, r[i]);
        &&& self.links@.contains_key(k)
        &&& self.links@[k].prev == r[pred(i, r.len() as int)]
        &&& self.links@[k].next == r[succ(i, r.len() as int)]
    }

    spec fn links_ok(&self) -> bool {
        &&& forall|b: u128, i: int|
            self.rings@.contains_key(b) && 0 <= i < self.rings@[b].len() ==> #[trigger] self.node_ok(
                b,
                i,
            )
        &&& forall|k: u128| #[trigger]
            self.links@.contains_key(k) ==> self.rings@.contains_key(front(k))
                && self.rings@[front(k)].contains(last(k))
    }

    /// The stored links agree with the rings of the view.
    pub closed spec fn wf(&self) -> bool {
        &&& self.rings_ok()
        &&& self.links_ok()
    }

    /// A well-formed table has only rings that are non-empty and free of
    /// repetitions.
    pub proof fn lemma_rings_ok(&self)
        requires
            self.wf(),
        ensures
            self.rings_ok(),
    {
    }

    /// An empty table.
    pub fn new() -> (t: Self)
        ensures
            t.wf(),
            t@ == Map::<u128, Seq<u32>>::empty(),
    {
        LinkTable { links: Table::new(), rings: Ghost(Map::empty()) }
    }

    /// Drops every ring.
    pub fn clear(&mut self)
        ensures
            final(self).wf(),
            final(self)@ == Map::<u128, Seq<u32>>::empty(),
    {
        self.links.clear();
        self.rings = Ghost(Map::empty());
    }

    /// Whether `m` is a member of the ring at `base`.
    pub fn contains(&self, base: u128, m: u32) -> (r: bool)
        requires
            self.wf(),
            base < BASE_LIMIT,
        ensures
            r == self.ring(base).contains(m),
    {
        let k: u128 = make(base, m);
        let r = self.links.contains_key(&k);
        proof {
            lemma_push(base, m);
            if self.ring(base).contains(m) {
                let i = choose|i: int| 0 <= i < self.ring(base).len() && self.ring(base)[i] == m;
                assert(self.node_ok(base, i));
            }
        }
        r
    }

    /// The neighbours of `m` in the ring at `base`.
    pub fn link(&self, base: u128, m: u32) -> (l: Link)
        requires
            self.wf(),
            base < BASE_LIMIT,
            self.ring(base).contains(m),
        ensures
            forall|i: int|
                #![trigger self.ring(base)[i]]
                0 <= i < self.ring(base).len() && self.ring(base)[i] == m ==> {
                    &&& l.prev == self.ring(base)[pred(i, self.ring(base).len() as int)]
                    &&& l.next == self.ring(base)[succ(i, self.ring(base).len() as int)]
                },
    {
        let k: u128 = make(base, m);
        proof {
            let i = choose|i: int| 0 <= i < self.ring(base).len() && self.ring(base)[i] == m;
            assert(self.node_ok(base, i));
            assert forall|j: int|
                0 <= j < self.ring(base).len() && self.ring(base)[j] == m implies j == i by {}
        }
        let l = self.links.get(&k);
        *l.unwrap()
    }

    /// The member after `m` in the ring at `base`.
    pub fn next(&self, base: u128, m: u32) -> (x: u32)
        requires
            self.wf(),
            base < BASE_LIMIT,
            self.ring(base).contains(m),
        ensures
            self.ring(base).contains(x),
            forall|i: int|
                #![trigger self.ring(base)[i]]
                0 <= i < self.ring(base).len() && self.ring(base)[i] == m ==> x == self.ring(
                    base,
                )[succ(i, self.ring(base).len() as int)],
    {
        let l = self.link(base, m);
        proof {
            let i = choose|i: int| 0 <= i < self.ring(base).len() && self.ring(base)[i] == m;
            assert(self.ring(base)[succ(i, self.ring(base).len() as int)] == l.next);
        }
        l.next
    }

    /// The member before `m` in the ring at `base`.
    pub fn prev(&self, base: u128, m: u32) -> (x: u32)
        requires
            self.wf(),
            base < BASE_LIMIT,
            self.ring(base).contains(m),
        ensures
            self.ring(base).contains(x),
            forall|i: int|
                #![trigger self.ring(base)[i]]
                0 <= i < self.ring(base).len() && self.ring(base)[i] == m ==> x == self.ring(
                    base,
                )[pred(i, self.ring(base).len() as int)],
    {
        let l = self.link(base, m);
        proof {
            let i = choose|i: int| 0 <= i < self.ring(base).len() && self.ring(base)[i] == m;
            assert(self.ring(base)[pred(i, self.ring(base).len() as int)] == l.prev);
        }
        l.prev
    }

    /// Starts the ring at `base` with the single member `m`.
    pub fn insert_alone(&mut self, base: u128, m: u32)
        requires
            old(self).wf(),
            base < BASE_LIMIT,
            !old(self)@.contains_key(base),
        ensures
            final(self).wf(),
            final(self)@ == old(self)@.insert(base, seq![m]),
    {
        let k: u128 = make(base, m);
        self.links.insert(k, Link { prev: m, next: m });
        self.rings = Ghost(self.rings@.insert(base, seq![m]));
        proof {
            lemma_push(base, m);
            assert forall|b: u128, i: int|
                self.rings@.contains_key(b) && 0 <= i < self.rings@[b].len() implies #[trigger] self.node_ok(
                b,
                i,
            ) by {
                if b != base {
                    assert(old(self).node_ok(b, i));
                    lemma_push(b, old(self).rings@[b][i]);
                }
            }
            assert forall|k2: u128| #[trigger] self.links@.contains_key(k2) implies self.rings@.contains_key(
                front(k2),
            ) && self.rings@[front(k2)].contains(last(k2)) by {
                if k2 == k {
                    assert(self.rings@[base][0] == m);
                } else {
                    assert(old(self).links@.contains_key(k2));
                }
            }
        }
    }

    // Puts `m` right behind `at` in the links; the view is left for the caller.
    fn splice(&mut self, base: u128, at: u32, m: u32, Ghost(i): Ghost<int>)
        requires
            old(self).wf(),
            base < BASE_LIMIT,
            old(self)@.contains_key(base),
            0 <= i < old(self)@[base].len(),
            old(self)@[base][i] == at,
            !old(self)@[base].contains(m),
        ensures
            final(self).rings@ == old(self).rings@,
            final(self).links@.dom() == old(self).links@.dom().insert(push(base, m)),
            forall|k: u128|
                old(self).links@.contains_key(k) && front(k) != base ==> #[trigger] final(self).links@[k] == old(self).links@[k],
            forall|j: int|
                0 <= j < old(self)@[base].len() ==> #[trigger] spliced_node(
                    old(self)@[base],
                    i,
                    m,
                    j,
                    final(self).links@[push(base, old(self)@[base][j])],
                ),
            final(self).links@[push(base, m)].prev == at,
            final(self).links@[push(base, m)].next == old(self)@[base][succ(
                i,
                old(self)@[base].len() as int,
            )],
    {
        let ghost r = self.rings@[base];
        let ghost n = r.len() as int;
        let k_at: u128 = make(base, at);
        let k_m: u128 = make(base, m);
        proof {
            assert(self.node_ok(base, i));
            assert(self.node_ok(base, succ(i, n)));
            assert forall|j: int| 0 <= j < n implies (#[trigger] push(base, r[j])) != k_m && (j != i
                ==> push(base, r[j]) != k_at) && (j != succ(i, n) ==> push(base, r[j]) != push(
                base,
                r[succ(i, n)],
            )) by {
                lemma_push(base, r[j]);
                lemma_push(base, m);
                lemma_push(base, at);
                lemma_push(base, r[succ(i, n)]);
            }
            assert forall|j: int| 0 <= j < n implies #[trigger] self.node_ok(base, j) by {}
        }
        let l_at: Link = *self.links.get(&k_at).unwrap();
        let nx: u32 = l_at.next;
        self.links.insert(k_at, Link { prev: l_at.prev, next: m });
        let k_nx: u128 = make(base, nx);
        let l_nx: Link = *self.links.get(&k_nx).unwrap();
        self.links.insert(k_nx, Link { prev: m, next: l_nx.next });
        self.links.insert(k_m, Link { prev: at, next: nx });
        proof {
            lemma_push(base, m);
            lemma_push(base, at);
            lemma_push(base, nx);
            assert(self.links@.dom() =~= old(self).links@.dom().insert(push(base, m)));
            assert(nx == r[succ(i, n)]);
            assert forall|j: int| 0 <= j < n implies #[trigger] spliced_node(
                r,
                i,
                m,
                j,
                self.links@[push(base, r[j])],
            ) by {
                assert(old(self).node_ok(base, j));
                assert(push(base, r[j]) != k_m);
                if j != i {
                    assert(push(base, r[j]) != k_at);
                }
                if j != succ(i, n) {
                    assert(push(base, r[j]) != k_nx);
                }
            }
        }
    }

    /// Puts `m` into the ring at `base`, right behind the member `at`.
    pub fn insert_after(&mut self, base: u128, at: u32, m: u32)
        requires
            old(self).wf(),
            base < BASE_LIMIT,
            old(self).ring(base).contains(at),
            !old(self).ring(base).contains(m),
        ensures
            final(self).wf(),
            forall|i: int|
                #![trigger old(self).ring(base)[i]]
                0 <= i < old(self).ring(base).len() && old(self).ring(base)[i] == at ==> final(self)@ == old(self)@.insert(base, old(self).ring(base).insert(i + 1, m)),
    {
        let ghost r = self.rings@[base];
        let ghost n = r.len() as int;
        let ghost i = choose|i: int| 0 <= i < r.len() && r[i] == at;
        let ghost i0 = i;
        self.splice(base, at, m, Ghost(i));
        let ghost r2 = r.insert(i + 1, m);
        self.rings = Ghost(self.rings@.insert(base, r2));
        proof {
            assert forall|j: int| 0 <= j < n && r[j] == at implies j == i by {}
            assert(r2.no_duplicates()) by {
                assert forall|x: int, y: int|
                    0 <= x < r2.len() && 0 <= y < r2.len() && x != y implies r2[x] != r2[y] by {
                    let x0 = if x <= i {
                        x
                    } else {
                        x - 1
                    };
                    let y0 = if y <= i {
                        y
                    } else {
                        y - 1
                    };
                    if x != i + 1 && y != i + 1 {
                        assert(r2[x] == r[x0] && r2[y] == r[y0]);
                    }
                }
            }
            assert forall|b: u128, j: int|
                self.rings@.contains_key(b) && 0 <= j < self.rings@[b].len() implies #[trigger] self.node_ok(
                b,
                j,
            ) by {
                if b != base {
                    assert(old(self).node_ok(b, j));
                    lemma_push(b, old(self).rings@[b][j]);
                } else if j != i + 1 {
                    let j0 = if j <= i {
                        j
                    } else {
                        j - 1
                    };
                    assert(r2[j] == r[j0]);
                    assert(old(self).node_ok(base, j0));
                    assert(old(self).links@.contains_key(push(base, r[j0])));
                    assert(spliced_node(r, i0, m, j0, self.links@[push(base, r[j0])]));
                }
            }
            assert forall|k2: u128| #[trigger] self.links@.contains_key(k2) implies self.rings@.contains_key(
                front(k2),
            ) && self.rings@[front(k2)].contains(last(k2)) by {
                lemma_push(base, m);
                if k2 == push(base, m) {
                    assert(r2[i + 1] == m);
                } else {
                    assert(old(self).links@.contains_key(k2));
                    if front(k2) == base {
                        let j0 = choose|j0: int| 0 <= j0 < r.len() && r[j0] == last(k2);
                        let j = if j0 <= i {
                            j0
                        } else {
                            j0 + 1
                        };
                        assert(r2[j] == last(k2));
                    }
                }
            }
        }
    }

    /// Puts `m` into the ring at `base` right behind its first member, and
    /// makes `m` the first member.
    pub fn insert_as_first(&mut self, base: u128, head: u32, m: u32)
        requires
            old(self).wf(),
            base < BASE_LIMIT,
            old(self)@.contains_key(base),
            old(self)@[base][0] == head,
            !old(self).ring(base).contains(m),
        ensures
            final(self).wf(),
            final(self)@ == old(self)@.insert(base, with_new_first(old(self).ring(base), m)),
    {
        let ghost r = self.rings@[base];
        let ghost n = r.len() as int;
        proof {
            self.lemma_rings_ok();
        }
        let ghost i0: int = 0;
        self.splice(base, head, m, Ghost(0));
        let ghost r2 = with_new_first(r, m);
        self.rings = Ghost(self.rings@.insert(base, r2));
        proof {
            assert(r2.len() == n + 1);
            assert(r2[0] == m);
            assert(r2[n] == r[0]);
            assert forall|x: int| 1 <= x < n implies r2[x] == r[x] by {}
            assert(r2.no_duplicates()) by {
                assert forall|x: int, y: int|
                    0 <= x < r2.len() && 0 <= y < r2.len() && x != y implies r2[x] != r2[y] by {
                    let x0 = if x == n {
                        0
                    } else {
                        x
                    };
                    let y0 = if y == n {
                        0
                    } else {
                        y
                    };
                    if x != 0 && y != 0 {
                        assert(r2[x] == r[x0] && r2[y] == r[y0]);
                    }
                }
            }
            assert forall|b: u128, j: int|
                self.rings@.contains_key(b) && 0 <= j < self.rings@[b].len() implies #[trigger] self.node_ok(
                b,
                j,
            ) by {
                if b != base {
                    assert(old(self).node_ok(b, j));
                    lemma_push(b, old(self).rings@[b][j]);
                } else if j != 0 {
                    let j0 = if j == n {
                        0
                    } else {
                        j
                    };
                    assert(r2[j] == r[j0]);
                    assert(old(self).node_ok(base, j0));
                    assert(old(self).links@.contains_key(push(base, r[j0])));
                    assert(spliced_node(r, i0, m, j0, self.links@[push(base, r[j0])]));
                }
            }
            assert forall|k2: u128| #[trigger] self.links@.contains_key(k2) implies self.rings@.contains_key(
                front(k2),
            ) && self.rings@[front(k2)].contains(last(k2)) by {
                lemma_push(base, m);
                if k2 == push(base, m) {
                    assert(r2[0] == m);
                } else {
                    assert(old(self).links@.contains_key(k2));
                    if front(k2) == base {
                        let j0 = choose|j0: int| 0 <= j0 < r.len() && r[j0] == last(k2);
                        let j = if j0 == 0 {
                            n
                        } else {
                            j0
                        };
                        assert(r2[j] == last(k2));
                    }
                }
            }
        }
    }

    /// Takes `m` out of the ring at `base` and returns the member that stood
    /// behind it (which is `m` itself where the ring had no other member).
    pub fn remove(&mut self, base: u128, m: u32) -> (x: u32)
        requires
            old(self).wf(),
            base < BASE_LIMIT,
            old(self).ring(base).contains(m),
        ensures
            final(self).wf(),
            forall|i: int|
                #![trigger old(self).ring(base)[i]]
                0 <= i < old(self).ring(base).len() && old(self).ring(base)[i] == m ==> {
                    &&& x == old(self).ring(base)[succ(i, old(self).ring(base).len() as int)]
                    &&& final(self)@ == if old(self).ring(base).len() == 1 {
                        old(self)@.remove(base)
                    } else {
                        old(self)@.insert(base, old(self).ring(base).remove(i))
                    }
                },
    {
        let ghost r = self.rings@[base];
        let ghost n = r.len() as int;
        let ghost i = choose|i: int| 0 <= i < r.len() && r[i] == m;
        let k_m: u128 = make(base, m);
        proof {
            assert forall|j: int| 0 <= j < n && r[j] == m implies j == i by {}
            assert forall|j: int| 0 <= j < n implies #[trigger] self.node_ok(base, j) by {}
            assert forall|j: int, j2: int| 0 <= j < n && 0 <= j2 < n && j != j2 implies (
            #[trigger] push(base, r[j])) != (#[trigger] push(base, r[j2])) by {
                lemma_push(base, r[j]);
                lemma_push(base, r[j2]);
            }
            assert(self.node_ok(base, i));
        }
        let l: Link = self.links.remove(&k_m).unwrap();
        if l.next == m {
            self.rings = Ghost(self.rings@.remove(base));
            proof {
                assert(n == 1) by {
                    if n > 1 {
                        assert(r[succ(i, n)] == r[i]);
                    }
                }
                assert forall|b: u128, j: int|
                    self.rings@.contains_key(b) && 0 <= j < self.rings@[b].len() implies #[trigger] self.node_ok(
                    b,
                    j,
                ) by {
                    assert(old(self).node_ok(b, j));
                    lemma_push(b, old(self).rings@[b][j]);
                    lemma_push(base, m);
                }
                assert forall|k2: u128| #[trigger] self.links@.contains_key(k2) implies self.rings@.contains_key(
                    front(k2),
                ) && self.rings@[front(k2)].contains(last(k2)) by {
                    assert(old(self).links@.contains_key(k2));
                    if front(k2) == base {
                        lemma_front_last(k2);
                        assert(r[0] == last(k2));
                    }
                }
            }
        } else {
            let p: u32 = l.prev;
            let x: u32 = l.next;
            proof {
                assert(n > 1);
                assert(old(self).node_ok(base, pred(i, n)));
                assert(old(self).node_ok(base, succ(i, n)));
                assert(push(base, r[pred(i, n)]) != push(base, r[i]));
                assert(push(base, r[succ(i, n)]) != push(base, r[i]));
            }
            let k_p: u128 = make(base, p);
            let l_p: Link = *self.links.get(&k_p).unwrap();
            self.links.insert(k_p, Link { prev: l_p.prev, next: x });
            let k_x: u128 = make(base, x);
            let l_x: Link = *self.links.get(&k_x).unwrap();
            self.links.insert(k_x, Link { prev: p, next: l_x.next });
            let ghost r2 = r.remove(i);
            self.rings = Ghost(self.rings@.insert(base, r2));
            proof {
                lemma_push(base, m);
                lemma_push(base, p);
                lemma_push(base, x);
                assert(r2.len() == n - 1);
                assert forall|j: int| 0 <= j < n - 1 implies r2[j] == r[if j < i {
                    j
                } else {
                    j + 1
                }] by {}
                assert(r2.no_duplicates());
                assert forall|b: u128, j: int|
                    self.rings@.contains_key(b) && 0 <= j < self.rings@[b].len() implies #[trigger] self.node_ok(
                    b,
                    j,
                ) by {
                    if b != base {
                        assert(old(self).node_ok(b, j));
                        lemma_push(b, old(self).rings@[b][j]);
                    } else {
                        let j0 = if j < i {
                            j
                        } else {
                            j + 1
                        };
                        assert(r2[j] == r[j0]);
                        assert(old(self).node_ok(base, j0));
                        lemma_push(base, r[j0]);
                    }
                }
                assert forall|k2: u128| #[trigger] self.links@.contains_key(k2) implies self.rings@.contains_key(
                    front(k2),
                ) && self.rings@[front(k2)].contains(last(k2)) by {
                    assert(old(self).links@.contains_key(k2));
                    if front(k2) == base {
                        lemma_front_last(k2);
                        let j0 = choose|j0: int| 0 <= j0 < r.len() && r[j0] == last(k2);
                        assert(j0 != i);
                        let j = if j0 < i {
                            j0
                        } else {
                            j0 - 1
                        };
                        assert(r2[j] == last(k2));
                    }
                }
            }
        }
        l.next
    }

    /// The members of the ring at `base` in ring order, given its first member.
    pub fn members(&self, base: u128, head: u32) -> (v: Vec<u32>)
        requires
            self.wf(),
            base < BASE_LIMIT,
            self@.contains_key(base),
            self@[base][0] == head,
        ensures
            v@ == self@[base],
    {
        let ghost r = self.rings@[base];
        let ghost n = r.len() as int;
        let mut v: Vec<u32> = Vec::new();
        let mut cur: u32 = head;
        let ghost mut i: int = 0;
        loop
            invariant_except_break
                v@ == r.subrange(0, i),
            invariant
                self.wf(),
                base < BASE_LIMIT,
                self@.contains_key(base),
                r == self@[base],
                n == r.len(),
                r[0] == head,
                0 <= i < n,
                cur == r[i],
            ensures
                v@ == r,
            decreases n - i,
        {
            v.push(cur);
            let nx: u32 = self.next(base, cur);
            proof {
                assert(v@ == r.subrange(0, i + 1));
                assert(nx == r[succ(i, n)]);
            }
            if nx == head {
                proof {
                    assert(succ(i, n) == 0);
                    assert(v@ == r);
                }
                break ;
            }
            cur = nx;
            proof {
                i = i + 1;
            }
        }
        v
    }

    /// Whether `hint` stands for the ring at `base`: it is the first member
    /// of the ring, or `sentinel` where the base has no ring. The sentinel is
    /// never a member.
    pub open spec fn hinted(&self, base: u128, hint: u32, sentinel: u32) -> bool {
        &&& !self.ring(base).contains(sentinel)
        &&& hint == if self@.contains_key(base) {
            self@[base][0]
        } else {
            sentinel
        }
    }

    /// Puts `m` into the ring at `base` and returns the hint of the new ring.
    pub fn add(&mut self, base: u128, hint: u32, sentinel: u32, m: u32, lead: bool) -> (h: u32)
        requires
            old(self).wf(),
            base < BASE_LIMIT,
            old(self).hinted(base, hint, sentinel),
            m != sentinel,
            !old(self).ring(base).contains(m),
        ensures
            final(self).wf(),
            final(self).hinted(base, h, sentinel),
            final(self)@ == old(self)@.insert(base, added(old(self).ring(base), m, lead)),
            final(self).ring(base) == added(old(self).ring(base), m, lead),
            forall|b: u128| b != base ==> final(self).ring(b) == old(self).ring(b),
            forall|x: u32|
                final(self).ring(base).contains(x) <==> old(self).ring(base).contains(x) || x == m,
    {
        proof {
            self.lemma_rings_ok();
        }
        let ghost r = self.ring(base);
        let h: u32 = if hint == sentinel {
            self.insert_alone(base, m);
            m
        } else if lead {
            self.insert_as_first(base, hint, m);
            m
        } else {
            self.insert_after(base, hint, m);
            hint
        };
        proof {
            let r2 = added(r, m, lead);
            assert(self@[base] == r2);
            assert forall|x: u32| r2.contains(x) <==> r.contains(x) || x == m by {
                if r.len() == 0 {
                    assert(r2[0] == m);
                } else if lead {
                    let n = r.len() as int;
                    assert(r2[0] == m);
                    assert(r2[n] == r[0]);
                    assert forall|j: int| 1 <= j < n implies r2[j] == r[j] by {}
                    if r.contains(x) {
                        let j = choose|j: int| 0 <= j < r.len() && r[j] == x;
                        assert(r2[if j == 0 {
                            n
                        } else {
                            j
                        }] == x);
                    }
                } else {
                    assert(r2[1] == m);
                    if r.contains(x) {
                        let j = choose|j: int| 0 <= j < r.len() && r[j] == x;
                        assert(r2[if j == 0 {
                            0
                        } else {
                            j + 1
                        }] == x);
                    }
                    if r2.contains(x) && x != m {
                        let j = choose|j: int| 0 <= j < r2.len() && r2[j] == x;
                        assert(r[if j == 0 {
                            0
                        } else {
                            j - 1
                        }] == x);
                    }
                }
            }
        }
        h
    }

    /// Takes `m` out of the ring at `base` and returns the hint of what is
    /// left.
    pub fn del(&mut self, base: u128, hint: u32, sentinel: u32, m: u32) -> (h: u32)
        requires
            old(self).wf(),
            base < BASE_LIMIT,
            old(self).hinted(base, hint, sentinel),
            old(self).ring(base).contains(m),
        ensures
            final(self).wf(),
            final(self).hinted(base, h, sentinel),
            forall|i: int|
                #![trigger old(self).ring(base)[i]]
                0 <= i < old(self).ring(base).len() && old(self).ring(base)[i] == m ==> final(self)@
                    == if old(self).ring(base).len() == 1 {
                    old(self)@.remove(base)
                } else {
                    old(self)@.insert(base, old(self).ring(base).remove(i))
                },
            final(self).ring(base) == dropped(old(self).ring(base), m),
            forall|b: u128| b != base ==> final(self).ring(b) == old(self).ring(b),
            forall|x: u32|
                final(self).ring(base).contains(x) <==> old(self).ring(base).contains(x) && x != m,
    {
        proof {
            self.lemma_rings_ok();
        }
        let ghost r = self.ring(base);
        let ghost n = r.len() as int;
        let ghost i = choose|i: int| 0 <= i < r.len() && r[i] == m;
        let x: u32 = self.remove(base, m);
        proof {
            assert forall|j: int| 0 <= j < n && r[j] == m implies j == i by {}
            let r2 = self.ring(base);
            lemma_dropped(r, m);
            assert(r2 =~= dropped(r, m));
            if n > 1 {
                assert(r2 == r.remove(i));
                assert forall|j: int| 0 <= j < n - 1 implies r2[j] == r[if j < i {
                    j
                } else {
                    j + 1
                }] by {}
            }
            assert forall|y: u32| r2.contains(y) <==> r.contains(y) && y != m by {
                if n > 1 {
                    if r.contains(y) && y != m {
                        let j = choose|j: int| 0 <= j < r.len() && r[j] == y;
                        assert(r2[if j < i {
                            j
                        } else {
                            j - 1
                        }] == y);
                    }
                } else {
                    if r.contains(y) {
                        let j = choose|j: int| 0 <= j < r.len() && r[j] == y;
                        assert(j == 0);
                    }
                }
            }
        }
        if x == m {
            sentinel
        } else if hint == m {
            x
        } else {
            hint
        }
    }

    /// The members of the ring at `base`, in ring order from the hint on.
    pub fn list(&self, base: u128, hint: u32, sentinel: u32) -> (v: Vec<u32>)
        requires
            self.wf(),
            base < BASE_LIMIT,
            self.hinted(base, hint, sentinel),
        ensures
            v@ == self.ring(base),
    {
        proof {
            self.lemma_rings_ok();
        }
        if hint == sentinel {
            Vec::new()
        } else {
            self.members(base, hint)
        }
    }
}

} // verus!
