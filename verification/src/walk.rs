use vstd::prelude::*;

use crate::children::Children;
use crate::id_map::IdMap;
use crate::ids::RemoteId;
use crate::sort_key::KeyView;

verus! {

/// Appends the items of `s` to `acc` in turn, skipping those already
/// present.
pub open spec fn dedup_onto(acc: Seq<RemoteId>, s: Seq<RemoteId>) -> Seq<RemoteId>
    decreases s.len(),
{
    if s.len() == 0 {
        acc
    } else {
        let next = if acc.contains(s[0]) {
            acc
        } else {
            acc.push(s[0])
        };
        dedup_onto(next, s.drop_first())
    }
}

pub proof fn lemma_dedup_concat(acc: Seq<RemoteId>, a: Seq<RemoteId>, b: Seq<RemoteId>)
    ensures
        dedup_onto(acc, a + b) == dedup_onto(dedup_onto(acc, a), b),
    decreases a.len(),
{
    if a.len() == 0 {
        assert(a + b =~= b);
    } else {
        assert((a + b).drop_first() =~= a.drop_first() + b);
        assert((a + b)[0] == a[0]);
        let next = if acc.contains(a[0]) {
            acc
        } else {
            acc.push(a[0])
        };
        lemma_dedup_concat(next, a.drop_first(), b);
    }
}

pub proof fn lemma_dedup_one(acc: Seq<RemoteId>, c: RemoteId)
    ensures
        dedup_onto(acc, seq![c]) == if acc.contains(c) {
            acc
        } else {
            acc.push(c)
        },
{
    reveal_with_fuel(dedup_onto, 2);
    assert(seq![c].drop_first() =~= Seq::<RemoteId>::empty());
}

/// `dedup_onto` keeps `acc` free of repeats.
pub proof fn lemma_dedup_distinct(acc: Seq<RemoteId>, s: Seq<RemoteId>)
    requires
        forall|i: int, j: int| 0 <= i < j < acc.len() ==> acc[i] != acc[j],
    ensures
        forall|i: int, j: int|
            0 <= i < j < dedup_onto(acc, s).len() ==> dedup_onto(acc, s)[i] != dedup_onto(acc, s)[j],
        forall|x: RemoteId| #[trigger] dedup_onto(acc, s).contains(x) <==> acc.contains(x) || s.contains(x),
    decreases s.len(),
{
    if s.len() > 0 {
        let next = if acc.contains(s[0]) {
            acc
        } else {
            acc.push(s[0])
        };
        assert forall|i: int, j: int| 0 <= i < j < next.len() implies next[i] != next[j] by {
            if !acc.contains(s[0]) && j == acc.len() {
                assert(acc[i] == next[i]);
            }
        }
        lemma_dedup_distinct(next, s.drop_first());
        assert(dedup_onto(acc, s) == dedup_onto(next, s.drop_first()));
        assert forall|x: RemoteId| #[trigger] dedup_onto(acc, s).contains(x) <==> acc.contains(x) || s.contains(x) by {
            if s.contains(x) && x != s[0] {
                let k = choose|k: int| 0 <= k < s.len() && s[k] == x;
                assert(s.drop_first()[k - 1] == x);
            }
            if s.drop_first().contains(x) {
                let k = choose|k: int| 0 <= k < s.drop_first().len() && s.drop_first()[k] == x;
                assert(s[k + 1] == x);
            }
            if next.contains(x) && !acc.contains(x) {
                assert(x == s[0]);
                assert(s[0] == x);
            }
            if acc.contains(x) {
                let k = choose|k: int| 0 <= k < acc.len() && acc[k] == x;
                assert(next[k] == x);
            }
            if x == s[0] && !acc.contains(x) {
                assert(next[acc.len() as int] == x);
            }
        }
    }
}

/// A hierarchy of groups: for each group, its children in key order.
pub type Tree = Map<RemoteId, Seq<KeyView>>;

/// The hierarchy that a map of children sets stands for.
pub open spec fn groups_of(m: Map<RemoteId, Children>) -> Tree {
    m.map_values(|c: Children| c@)
}

/// The identifiers of the children of `g`, in order, as the walk sees
/// them.
pub open spec fn kids_in(t: Tree, g: RemoteId) -> Seq<RemoteId> {
    if t.contains_key(g) {
        t[g].map_values(|k: KeyView| k.1)
    } else {
        Seq::empty()
    }
}

/// The children of `g` in the order the walk takes them: as they are,
/// or reversed.
pub open spec fn ordered_kids(t: Tree, g: RemoteId, back: bool) -> Seq<RemoteId> {
    if back {
        kids_in(t, g).reverse()
    } else {
        kids_in(t, g)
    }
}

/// Whether every path down the children links from the items of `cs`
/// is shorter than `n`.
pub open spec fn bounded(t: Tree, cs: Seq<RemoteId>, n: nat) -> bool
    decreases n, cs.len(),
{
    if cs.len() == 0 {
        true
    } else {
        n > 0 && bounded(t, kids_in(t, cs[0]), (n - 1) as nat) && bounded(
            t,
            cs.drop_first(),
            n,
        )
    }
}

/// Whether every path down from `c` is shorter than `n - 1`.
pub open spec fn bounded_below(t: Tree, c: RemoteId, n: nat) -> bool {
    n > 0 && bounded(t, kids_in(t, c), (n - 1) as nat)
}

/// A list is bounded where each of its items is.
pub proof fn lemma_bounded_items(t: Tree, cs: Seq<RemoteId>, n: nat)
    ensures
        bounded(t, cs, n) <==> forall|i: int|
            0 <= i < cs.len() ==> #[trigger] bounded_below(t, cs[i], n),
    decreases cs.len(),
{
    if cs.len() > 0 {
        lemma_bounded_items(t, cs.drop_first(), n);
        assert forall|i: int| 1 <= i < cs.len() implies #[trigger] cs.drop_first()[i - 1]
            == cs[i] by {}
        if forall|i: int| 0 <= i < cs.len() ==> #[trigger] bounded_below(t, cs[i], n) {
            assert forall|i: int| 0 <= i < cs.drop_first().len() implies #[trigger] bounded_below(
                t,
                cs.drop_first()[i],
                n,
            ) by {
                assert(cs.drop_first()[i] == cs[i + 1]);
            }
            assert(bounded_below(t, cs[0], n));
        }
        if bounded(t, cs, n) {
            assert forall|i: int| 0 <= i < cs.len() implies #[trigger] bounded_below(
                t,
                cs[i],
                n,
            ) by {
                if i > 0 {
                    assert(cs.drop_first()[i - 1] == cs[i]);
                    assert(bounded_below(t, cs.drop_first()[i - 1], n));
                }
            }
        }
    }
}

/// Whether no cycle of children links can be reached from `id`.
pub open spec fn acyclic_from(t: Tree, id: RemoteId) -> bool {
    exists|n: nat| bounded(t, kids_in(t, id), n)
}

/// The items of `cs` and their descendants in depth-first order, every
/// item before its own children, going at most `n` levels down.
pub open spec fn walk_list(t: Tree, cs: Seq<RemoteId>, n: nat, back: bool) -> Seq<RemoteId>
    decreases n, cs.len(),
{
    if cs.len() == 0 || n == 0 {
        Seq::empty()
    } else {
        seq![cs[0]] + walk_list(t, ordered_kids(t, cs[0], back), (n - 1) as nat, back)
            + walk_list(t, cs.drop_first(), n, back)
    }
}

proof fn lemma_bounded_sub(t: Tree, cs: Seq<RemoteId>, ds: Seq<RemoteId>, n: nat)
    requires
        bounded(t, cs, n),
        forall|x: RemoteId| #[trigger] ds.contains(x) ==> cs.contains(x),
    ensures
        bounded(t, ds, n),
{
    lemma_bounded_items(t, cs, n);
    lemma_bounded_items(t, ds, n);
    assert forall|i: int| 0 <= i < ds.len() implies #[trigger] bounded_below(t, ds[i], n) by {
        assert(ds.contains(ds[i]));
        let j = choose|j: int| 0 <= j < cs.len() && cs[j] == ds[i];
        assert(bounded_below(t, cs[j], n));
    }
}

proof fn lemma_bounded_kids(t: Tree, c: RemoteId, n: nat, back: bool)
    requires
        bounded_below(t, c, n),
    ensures
        n > 0,
        bounded(t, ordered_kids(t, c, back), (n - 1) as nat),
{
    if back {
        let k = kids_in(t, c);
        assert forall|x: RemoteId| #[trigger] k.reverse().contains(x) implies k.contains(x) by {
            let j = choose|j: int| 0 <= j < k.reverse().len() && k.reverse()[j] == x;
            assert(k[k.len() - 1 - j] == x);
        }
        lemma_bounded_sub(t, k, k.reverse(), (n - 1) as nat);
    }
}

proof fn lemma_walk_snoc(t: Tree, cs: Seq<RemoteId>, c: RemoteId, n: nat, back: bool)
    requires
        n > 0,
    ensures
        walk_list(t, cs.push(c), n, back) == walk_list(t, cs, n, back) + (seq![c]
            + walk_list(t, ordered_kids(t, c, back), (n - 1) as nat, back)),
    decreases cs.len(),
{
    let pc = cs.push(c);
    if cs.len() == 0 {
        assert(pc.drop_first() =~= Seq::<RemoteId>::empty());
        assert(walk_list(t, pc.drop_first(), n, back) == Seq::<RemoteId>::empty());
        assert(pc[0] == c);
        assert(walk_list(t, pc, n, back) =~= seq![c] + walk_list(
            t,
            ordered_kids(t, c, back),
            (n - 1) as nat,
            back,
        ));
    } else {
        assert(pc.drop_first() =~= cs.drop_first().push(c));
        assert(pc[0] == cs[0]);
        lemma_walk_snoc(t, cs.drop_first(), c, n, back);
        assert(walk_list(t, pc, n, back) =~= walk_list(t, cs, n, back) + (seq![c]
            + walk_list(t, ordered_kids(t, c, back), (n - 1) as nat, back)));
    }
}

proof fn lemma_walk_fuel(t: Tree, cs: Seq<RemoteId>, n1: nat, n2: nat, back: bool)
    requires
        bounded(t, cs, n1),
        n1 <= n2,
    ensures
        bounded(t, cs, n2),
        walk_list(t, cs, n1, back) == walk_list(t, cs, n2, back),
    decreases n1, cs.len(),
{
    if cs.len() > 0 {
        assert(bounded_below(t, cs[0], n1));
        lemma_bounded_kids(t, cs[0], n1, back);
        lemma_bounded_kids(t, cs[0], n1, false);
        lemma_walk_fuel(t, ordered_kids(t, cs[0], back), (n1 - 1) as nat, (n2 - 1) as nat, back);
        lemma_walk_fuel(t, kids_in(t, cs[0]), (n1 - 1) as nat, (n2 - 1) as nat, false);
        lemma_bounded_sub(t, cs, cs.drop_first(), n1);
        lemma_walk_fuel(t, cs.drop_first(), n1, n2, back);
    }
}

/// The children of `c` in walk order.
fn ordered_kids_exec(children: &IdMap<Children>, c: RemoteId, back: bool) -> (r: Vec<RemoteId>)
    requires
        children.wf(),
    ensures
        r@ == ordered_kids(groups_of(children@), c, back),
{
    let ids = match children.get(&c) {
        Some(set) => set.ids(),
        None => {
            let r: Vec<RemoteId> = Vec::new();
            assert(r@ =~= Seq::<KeyView>::empty().map_values(|k: KeyView| k.1));
            r
        },
    };
    if !back {
        return ids;
    }
    let mut r: Vec<RemoteId> = Vec::new();
    let mut i: usize = ids.len();
    while i > 0
        invariant
            0 <= i <= ids@.len(),
            r@ == ids@.reverse().take(ids@.len() - i),
        decreases i,
    {
        i = i - 1;
        r.push(ids[i]);
        assert(r@ =~= ids@.reverse().take(ids@.len() - i));
    }
    assert(ids@.reverse().take(ids@.len() as int) =~= ids@.reverse());
    r
}

fn walk_into(children: &IdMap<Children>, cs: &Vec<RemoteId>, out: &mut Vec<RemoteId>, Ghost(n): Ghost<nat>, back: bool)
    requires
        children.wf(),
        bounded(groups_of(children@), cs@, n),
    ensures
        final(out)@ == dedup_onto(old(out)@, walk_list(groups_of(children@), cs@, n, back)),
    decreases n,
{
    let ghost out0 = out@;
    let mut i: usize = 0;
    while i < cs.len()
        invariant
            0 <= i <= cs@.len(),
            children.wf(),
            bounded(groups_of(children@), cs@, n),
            out@ == dedup_onto(out0, walk_list(groups_of(children@), cs@.take(i as int), n, back)),
        decreases cs@.len() - i,
    {
        let c = cs[i];
        proof {
            lemma_bounded_items(groups_of(children@), cs@, n);
            assert(bounded_below(groups_of(children@), cs@[i as int], n));
            lemma_bounded_kids(groups_of(children@), c, n, back);
            assert(cs@.take(i + 1) =~= cs@.take(i as int).push(c));
            lemma_walk_snoc(groups_of(children@), cs@.take(i as int), c, n, back);
            lemma_dedup_concat(out0, walk_list(groups_of(children@), cs@.take(i as int), n, back), seq![c] + walk_list(groups_of(children@), ordered_kids(groups_of(children@), c, back), (n - 1) as nat, back));
            lemma_dedup_concat(out@, seq![c], walk_list(groups_of(children@), ordered_kids(groups_of(children@), c, back), (n - 1) as nat, back));
            lemma_dedup_one(out@, c);
        }
        let mut seen = false;
        let mut j: usize = 0;
        while j < out.len()
            invariant
                0 <= j <= out@.len(),
                seen == (exists|k: int| 0 <= k < j && out@[k] == c),
            decreases out@.len() - j,
        {
            if out[j].same(&c) {
                seen = true;
            }
            j = j + 1;
        }
        if !seen {
            out.push(c);
        }
        let kids = ordered_kids_exec(children, c, back);
        walk_into(children, &kids, out, Ghost((n - 1) as nat), back);
        i = i + 1;
    }
    proof {
        assert(cs@.take(i as int) =~= cs@);
    }
}

pub fn walk_groups(children: &IdMap<Children>, id: RemoteId, back: bool) -> (r: Vec<RemoteId>)
    requires
        children.wf(),
        acyclic_from(groups_of(children@), id),
    ensures
        forall|n: nat| #[trigger] bounded(groups_of(children@), kids_in(groups_of(children@), id), n) ==> r@ == dedup_onto(
            Seq::empty(),
            walk_list(groups_of(children@), ordered_kids(groups_of(children@), id, back), n, back),
        ),
        forall|i: int, j: int| 0 <= i < j < r@.len() ==> r@[i] != r@[j],
        forall|n: nat, x: RemoteId| #![trigger bounded(groups_of(children@), kids_in(groups_of(children@), id), n), r@.contains(x)] bounded(groups_of(children@), kids_in(groups_of(children@), id), n) ==> (r@.contains(x)
            <==> walk_list(groups_of(children@), ordered_kids(groups_of(children@), id, back), n, back).contains(x)),
{
    let ghost n0 = choose|n: nat| bounded(groups_of(children@), kids_in(groups_of(children@), id), n);
    let mut out: Vec<RemoteId> = Vec::new();
    let ghost kids = kids_in(groups_of(children@), id);
    let ghost first = ordered_kids(groups_of(children@), id, back);
    proof {
        if back {
            assert forall|x: RemoteId| #[trigger] kids.reverse().contains(x) implies kids.contains(x) by {
                let j = choose|j: int| 0 <= j < kids.reverse().len() && kids.reverse()[j] == x;
                assert(kids[kids.len() - 1 - j] == x);
            }
            lemma_bounded_sub(groups_of(children@), kids, kids.reverse(), n0);
        }
    }
    let first_exec = ordered_kids_exec(children, id, back);
    walk_into(children, &first_exec, &mut out, Ghost(n0), back);
    proof {
        lemma_dedup_distinct(Seq::empty(), walk_list(groups_of(children@), first, n0, back));
        assert forall|n: nat| #[trigger] bounded(groups_of(children@), kids_in(groups_of(children@), id), n) implies out@ == dedup_onto(
            Seq::empty(),
            walk_list(groups_of(children@), first, n, back),
        ) by {
            if back {
                lemma_bounded_sub(groups_of(children@), kids, kids.reverse(), n);
            }
            lemma_dedup_distinct(Seq::empty(), walk_list(groups_of(children@), first, n, back));
            if n0 <= n {
                lemma_walk_fuel(groups_of(children@), first, n0, n, back);
            } else {
                lemma_walk_fuel(groups_of(children@), first, n, n0, back);
            }
        }
        assert forall|n: nat, x: RemoteId| #![trigger bounded(groups_of(children@), kids_in(groups_of(children@), id), n), out@.contains(x)]
            bounded(groups_of(children@), kids_in(groups_of(children@), id), n) implies (out@.contains(x)
            <==> walk_list(groups_of(children@), first, n, back).contains(x)) by {
            assert(out@ == dedup_onto(Seq::empty(), walk_list(groups_of(children@), first, n, back)));
            lemma_dedup_distinct(Seq::empty(), walk_list(groups_of(children@), first, n, back));
        }
    }
    out
}

} // verus!
