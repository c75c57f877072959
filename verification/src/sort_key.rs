use vstd::prelude::*;

use crate::ids::{rid_lt, RemoteId};

verus! {

/// The outcome of a three-way comparison.
#[derive(Debug, Clone, Copy, PartialEq, Eq, Structural)]
pub enum Cmp {
    Less,
    Equal,
    Greater,
}

/// Lexicographic order of byte strings, looking at positions from `i` on:
/// the first differing byte decides, and a proper prefix comes first.
pub open spec fn lex_lt_from(a: Seq<u8>, b: Seq<u8>, i: int) -> bool
    decreases a.len() - i,
{
    if i < 0 || i >= a.len() {
        0 <= i < b.len()
    } else if i >= b.len() {
        false
    } else if a[i] < b[i] {
        true
    } else if a[i] > b[i] {
        false
    } else {
        lex_lt_from(a, b, i + 1)
    }
}

/// The lexicographic order of byte strings.
pub open spec fn bytes_lt(a: Seq<u8>, b: Seq<u8>) -> bool {
    lex_lt_from(a, b, 0)
}

/// What a sort key looks like: the sort bytes and the object's identifier.
pub type KeyView = (Seq<u8>, RemoteId);

/// Keys are ordered by their sort bytes, then by identifier.
pub open spec fn key_lt(a: KeyView, b: KeyView) -> bool {
    bytes_lt(a.0, b.0) || (a.0 == b.0 && rid_lt(a.1, b.1))
}

proof fn lemma_lex_irreflexive(a: Seq<u8>, i: int)
    requires
        0 <= i,
    ensures
        !lex_lt_from(a, a, i),
    decreases a.len() - i,
{
    if i < a.len() {
        lemma_lex_irreflexive(a, i + 1);
    }
}

proof fn lemma_lex_transitive(a: Seq<u8>, b: Seq<u8>, c: Seq<u8>, i: int)
    requires
        0 <= i,
        lex_lt_from(a, b, i),
        lex_lt_from(b, c, i),
    ensures
        lex_lt_from(a, c, i),
    decreases a.len() - i,
{
    if i < a.len() && i < b.len() && i < c.len() && a[i] == b[i] && b[i] == c[i] {
        lemma_lex_transitive(a, b, c, i + 1);
    }
}

proof fn lemma_lex_total(a: Seq<u8>, b: Seq<u8>, i: int)
    requires
        0 <= i,
        i <= a.len(),
        i <= b.len(),
        forall|j: int| 0 <= j < i ==> a[j] == b[j],
    ensures
        lex_lt_from(a, b, i) || lex_lt_from(b, a, i) || a == b,
    decreases a.len() - i,
{
    if i < a.len() && i < b.len() && a[i] == b[i] {
        lemma_lex_total(a, b, i + 1);
    } else if i == a.len() && i == b.len() {
        assert(a =~= b);
    }
}

pub proof fn lemma_bytes_lt_irreflexive(a: Seq<u8>)
    ensures
        !bytes_lt(a, a),
{
    lemma_lex_irreflexive(a, 0);
}

pub proof fn lemma_bytes_lt_transitive(a: Seq<u8>, b: Seq<u8>, c: Seq<u8>)
    requires
        bytes_lt(a, b),
        bytes_lt(b, c),
    ensures
        bytes_lt(a, c),
{
    lemma_lex_transitive(a, b, c, 0);
}

pub proof fn lemma_bytes_lt_total(a: Seq<u8>, b: Seq<u8>)
    ensures
        bytes_lt(a, b) || bytes_lt(b, a) || a == b,
{
    lemma_lex_total(a, b, 0);
}

/// `key_lt` is a strict total order.
pub proof fn lemma_key_lt_order()
    ensures
        forall|a: KeyView| !key_lt(a, a),
        forall|a: KeyView, b: KeyView, c: KeyView|
            #[trigger] key_lt(a, b) && #[trigger] key_lt(b, c) ==> key_lt(a, c),
        forall|a: KeyView, b: KeyView| a != b ==> key_lt(a, b) || key_lt(b, a),
        forall|a: KeyView, b: KeyView| key_lt(a, b) ==> !key_lt(b, a),
{
    assert forall|a: KeyView| !key_lt(a, a) by {
        lemma_bytes_lt_irreflexive(a.0);
    }
    assert forall|a: KeyView, b: KeyView, c: KeyView|
        #[trigger] key_lt(a, b) && #[trigger] key_lt(b, c) implies key_lt(a, c) by {
        if bytes_lt(a.0, b.0) && bytes_lt(b.0, c.0) {
            lemma_bytes_lt_transitive(a.0, b.0, c.0);
        }
    }
    assert forall|a: KeyView, b: KeyView| a != b implies key_lt(a, b) || key_lt(b, a) by {
        lemma_bytes_lt_total(a.0, b.0);
    }
    assert forall|a: KeyView, b: KeyView| key_lt(a, b) implies !key_lt(b, a) by {
        lemma_bytes_lt_irreflexive(a.0);
        lemma_bytes_lt_irreflexive(b.0);
        if bytes_lt(a.0, b.0) && bytes_lt(b.0, a.0) {
            lemma_bytes_lt_transitive(a.0, b.0, a.0);
        }
    }
}

/// Compares two byte strings lexicographically.
pub fn compare_bytes(a: &[u8], b: &[u8]) -> (r: Cmp)
    ensures
        r == Cmp::Less <==> bytes_lt(a@, b@),
        r == Cmp::Equal <==> a@ == b@,
        r == Cmp::Greater <==> bytes_lt(b@, a@),
{
    proof {
        lemma_bytes_lt_irreflexive(a@);
        lemma_bytes_lt_irreflexive(b@);
        lemma_bytes_lt_total(a@, b@);
        if bytes_lt(a@, b@) && bytes_lt(b@, a@) {
            lemma_bytes_lt_transitive(a@, b@, a@);
        }
    }
    let mut i: usize = 0;
    while i < a.len() && i < b.len()
        invariant
            0 <= i <= a@.len(),
            i <= b@.len(),
            forall|j: int| 0 <= j < i ==> a@[j] == b@[j],
            bytes_lt(a@, b@) == lex_lt_from(a@, b@, i as int),
            bytes_lt(b@, a@) == lex_lt_from(b@, a@, i as int),
        decreases a@.len() - i,
    {
        if a[i] < b[i] {
            return Cmp::Less;
        }
        if a[i] > b[i] {
            return Cmp::Greater;
        }
        i = i + 1;
    }
    if a.len() < b.len() {
        Cmp::Less
    } else if a.len() > b.len() {
        Cmp::Greater
    } else {
        assert(a@ =~= b@);
        Cmp::Equal
    }
}

/// A position in a group: the sort bytes, then the object's identifier to
/// break ties.
#[derive(Debug)]
pub struct SortKey {
    pub sort: Vec<u8>,
    pub id: RemoteId,
}

impl View for SortKey {
    type V = KeyView;

    open spec fn view(&self) -> KeyView {
        (self.sort@, self.id)
    }
}

impl SortKey {
    /// Compares this key with the key made of `sort` and `id`.
    pub fn compare(&self, sort: &[u8], id: RemoteId) -> (r: Cmp)
        ensures
            r == Cmp::Less <==> key_lt(self@, (sort@, id)),
            r == Cmp::Equal <==> self@ == (sort@, id),
            r == Cmp::Greater <==> key_lt((sort@, id), self@),
    {
        proof {
            lemma_key_lt_order();
        }
        match compare_bytes(self.sort.as_slice(), sort) {
            Cmp::Less => Cmp::Less,
            Cmp::Greater => Cmp::Greater,
            Cmp::Equal => {
                if self.id.same(&id) {
                    Cmp::Equal
                } else if self.id.less(&id) {
                    Cmp::Less
                } else {
                    Cmp::Greater
                }
            },
        }
    }
}

} // verus!
