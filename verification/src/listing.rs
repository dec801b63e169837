//! The canonical listing of an entry: its protocols in the order of their
//! names, each with the canonical ranges of its versions. An entry has one
//! listing only, and its text is read off the listing.

use vstd::prelude::*;
use crate::protocol::{
    lemma_name_less_asymmetric,
    lemma_name_less_transitive,
    name_less,
};
use crate::protoset::{lemma_ranges_unique, range_text, ranges_set, ranges_wf, VersionRange};
use crate::text::join;

verus! {

/// Protocol names, each with the ranges of its versions.
pub type Listing = Seq<(Seq<char>, Seq<VersionRange>)>;

/// What an entry is: for each protocol that it names, the versions that
/// it gives for it.
pub type EntryModel = Map<Seq<char>, Set<int>>;

/// The names ascend strictly, and the ranges of each are canonical.
pub open spec fn listing_wf(l: Listing) -> bool {
    &&& forall|i: int| 0 <= i < l.len() ==> ranges_wf((#[trigger] l[i]).1)
    &&& forall|i: int, j: int|
        0 <= i < j < l.len() ==> name_less((#[trigger] l[i]).0, (#[trigger] l[j]).0)
}

/// Whether the listing names the protocol `n`.
pub open spec fn listing_has(l: Listing, n: Seq<char>) -> bool {
    exists|i: int| 0 <= i < l.len() && (#[trigger] l[i]).0 == n
}

/// Where the listing names the protocol `n`.
pub open spec fn listing_index(l: Listing, n: Seq<char>) -> int {
    choose|i: int| 0 <= i < l.len() && (#[trigger] l[i]).0 == n
}

/// The entry that the listing describes.
pub open spec fn listing_model(l: Listing) -> EntryModel {
    Map::new(
        |n: Seq<char>| listing_has(l, n),
        |n: Seq<char>| ranges_set(l[listing_index(l, n)].1),
    )
}

/// The listing of the entry `m`, where it has one.
pub open spec fn canonical_listing(m: EntryModel) -> Listing {
    choose|l: Listing| listing_wf(l) && listing_model(l) == m
}

/// Whether the entry `m` has a listing: finitely many protocols, each
/// with versions that finitely many ranges within the limit cover.
pub open spec fn has_listing(m: EntryModel) -> bool {
    exists|l: Listing| listing_wf(l) && listing_model(l) == m
}

/// Each place of a listing is the one place where its name stands, and
/// the model gives that name the versions listed there.
pub proof fn lemma_listing_at(l: Listing, i: int)
    requires
        listing_wf(l),
        0 <= i < l.len(),
    ensures
        listing_has(l, l[i].0),
        listing_index(l, l[i].0) == i,
        listing_model(l).dom().contains(l[i].0),
        listing_model(l)[l[i].0] == ranges_set(l[i].1),
{
    let n = l[i].0;
    let k = listing_index(l, n);
    assert(0 <= k < l.len() && l[k].0 == n);
    if k < i {
        assert(name_less(l[k].0, l[i].0));
        lemma_name_less_asymmetric(l[k].0, l[i].0);
    }
    if i < k {
        assert(name_less(l[i].0, l[k].0));
        lemma_name_less_asymmetric(l[i].0, l[k].0);
    }
}

/// A name that belongs at place `p` can be put there, and was not listed.
pub proof fn lemma_insert_wf(l: Listing, p: int, x: (Seq<char>, Seq<VersionRange>))
    requires
        listing_wf(l),
        ranges_wf(x.1),
        0 <= p <= l.len(),
        forall|i: int| 0 <= i < p ==> name_less((#[trigger] l[i]).0, x.0),
        p < l.len() ==> name_less(x.0, l[p].0),
    ensures
        listing_wf(l.insert(p, x)),
        !listing_has(l, x.0),
{
    let q = l.insert(p, x);
    assert forall|i: int| p <= i < l.len() implies name_less(x.0, (#[trigger] l[i]).0) by {
        if i > p {
            assert(name_less(l[p].0, l[i].0));
            lemma_name_less_transitive(x.0, l[p].0, l[i].0);
        }
    }
    assert forall|i: int| 0 <= i < q.len() implies ranges_wf((#[trigger] q[i]).1) by {
        if i < p {
            assert(q[i] == l[i]);
        } else if i > p {
            assert(q[i] == l[i - 1]);
        }
    }
    assert forall|i: int, j: int| 0 <= i < j < q.len() implies name_less(
        (#[trigger] q[i]).0,
        (#[trigger] q[j]).0,
    ) by {
        if i < p {
            assert(q[i] == l[i]);
        } else if i > p {
            assert(q[i] == l[i - 1]);
        }
        if j < p {
            assert(q[j] == l[j]);
        } else if j > p {
            assert(q[j] == l[j - 1]);
        }
    }
    if listing_has(l, x.0) {
        let i = listing_index(l, x.0);
        assert(0 <= i < l.len() && l[i].0 == x.0);
        if i < p {
            lemma_name_less_asymmetric(l[i].0, x.0);
        } else {
            lemma_name_less_asymmetric(x.0, l[i].0);
        }
    }
}

/// Putting a new name into a listing adds it to the model.
pub proof fn lemma_model_insert(l: Listing, p: int, x: (Seq<char>, Seq<VersionRange>))
    requires
        listing_wf(l),
        0 <= p <= l.len(),
        listing_wf(l.insert(p, x)),
    ensures
        listing_model(l.insert(p, x)) == listing_model(l).insert(x.0, ranges_set(x.1)),
{
    let q = l.insert(p, x);
    let a = listing_model(q);
    let b = listing_model(l).insert(x.0, ranges_set(x.1));
    lemma_listing_at(q, p);
    assert forall|m: Seq<char>| a.dom().contains(m) == b.dom().contains(m) by {
        if listing_has(q, m) {
            let j = listing_index(q, m);
            assert(0 <= j < q.len() && q[j].0 == m);
            if j < p {
                assert(l[j].0 == m);
            } else if j > p {
                assert(l[j - 1].0 == m);
            }
        }
        if listing_has(l, m) {
            let i = listing_index(l, m);
            assert(0 <= i < l.len() && l[i].0 == m);
            if i < p {
                assert(q[i].0 == m);
            } else {
                assert(q[i + 1].0 == m);
            }
        }
    }
    assert forall|m: Seq<char>| a.dom().contains(m) implies a[m] == b[m] by {
        if m != x.0 {
            let i = listing_index(l, m);
            assert(0 <= i < l.len() && l[i].0 == m);
            lemma_listing_at(l, i);
            if i < p {
                assert(q[i] == l[i]);
                lemma_listing_at(q, i);
            } else {
                assert(q[i + 1] == l[i]);
                lemma_listing_at(q, i + 1);
            }
        }
    }
    assert(a =~= b);
}

/// Giving a listed name other versions changes the model at that name.
pub proof fn lemma_model_update(l: Listing, p: int, x: (Seq<char>, Seq<VersionRange>))
    requires
        listing_wf(l),
        0 <= p < l.len(),
        l[p].0 == x.0,
        ranges_wf(x.1),
    ensures
        listing_wf(l.update(p, x)),
        listing_model(l.update(p, x)) == listing_model(l).insert(x.0, ranges_set(x.1)),
{
    let q = l.update(p, x);
    assert forall|i: int| 0 <= i < q.len() implies ranges_wf((#[trigger] q[i]).1) by {
        if i != p {
            assert(q[i] == l[i]);
        }
    }
    assert forall|i: int, j: int| 0 <= i < j < q.len() implies name_less(
        (#[trigger] q[i]).0,
        (#[trigger] q[j]).0,
    ) by {
        assert(q[i].0 == l[i].0);
        assert(q[j].0 == l[j].0);
    }
    let a = listing_model(q);
    let b = listing_model(l).insert(x.0, ranges_set(x.1));
    lemma_listing_at(q, p);
    lemma_listing_at(l, p);
    assert forall|m: Seq<char>| a.dom().contains(m) == b.dom().contains(m) by {
        if listing_has(q, m) {
            let j = listing_index(q, m);
            assert(0 <= j < q.len() && q[j].0 == m);
            assert(l[j].0 == m);
        }
        if listing_has(l, m) {
            let i = listing_index(l, m);
            assert(0 <= i < l.len() && l[i].0 == m);
            assert(q[i].0 == m);
        }
    }
    assert forall|m: Seq<char>| a.dom().contains(m) implies a[m] == b[m] by {
        if m != x.0 {
            let i = listing_index(l, m);
            assert(0 <= i < l.len() && l[i].0 == m);
            lemma_listing_at(l, i);
            assert(q[i] == l[i]);
            lemma_listing_at(q, i);
        }
    }
    assert(a =~= b);
}

/// The empty listing describes the entry that names no protocol.
pub proof fn lemma_model_empty()
    ensures
        listing_wf(Seq::<(Seq<char>, Seq<VersionRange>)>::empty()),
        listing_model(Seq::<(Seq<char>, Seq<VersionRange>)>::empty()) == Map::<
            Seq<char>,
            Set<int>,
        >::empty(),
{
    let l = Seq::<(Seq<char>, Seq<VersionRange>)>::empty();
    assert(listing_model(l) =~= Map::<Seq<char>, Set<int>>::empty());
}

/// Without its first place, a listing describes the entry without the
/// first name.
proof fn lemma_listing_tail(l: Listing)
    requires
        listing_wf(l),
        l.len() > 0,
    ensures
        listing_wf(l.skip(1)),
        listing_model(l.skip(1)) == listing_model(l).remove(l[0].0),
{
    let t = l.skip(1);
    assert forall|i: int| 0 <= i < t.len() implies ranges_wf((#[trigger] t[i]).1) by {
        assert(t[i] == l[i + 1]);
    }
    assert forall|i: int, j: int| 0 <= i < j < t.len() implies name_less(
        (#[trigger] t[i]).0,
        (#[trigger] t[j]).0,
    ) by {
        assert(t[i] == l[i + 1]);
        assert(t[j] == l[j + 1]);
    }
    let a = listing_model(t);
    let b = listing_model(l).remove(l[0].0);
    assert forall|m: Seq<char>| a.dom().contains(m) == b.dom().contains(m) by {
        if listing_has(t, m) {
            let j = listing_index(t, m);
            assert(0 <= j < t.len() && t[j].0 == m);
            assert(t[j] == l[j + 1]);
            assert(l[j + 1].0 == m);
            assert(name_less(l[0].0, l[j + 1].0));
            lemma_name_less_asymmetric(l[0].0, l[j + 1].0);
        }
        if listing_has(l, m) && m != l[0].0 {
            let i = listing_index(l, m);
            assert(0 <= i < l.len() && l[i].0 == m);
            assert(t[i - 1] == l[i]);
            assert(t[i - 1].0 == m);
        }
    }
    assert forall|m: Seq<char>| a.dom().contains(m) implies a[m] == b[m] by {
        let j = listing_index(t, m);
        assert(0 <= j < t.len() && t[j].0 == m);
        assert(t[j] == l[j + 1]);
        lemma_listing_at(t, j);
        lemma_listing_at(l, j + 1);
    }
    assert(a =~= b);
}

/// An entry has at most one listing.
pub proof fn lemma_listing_unique(a: Listing, b: Listing)
    requires
        listing_wf(a),
        listing_wf(b),
        listing_model(a) == listing_model(b),
    ensures
        a == b,
    decreases a.len(),
{
    if a.len() == 0 {
        if b.len() > 0 {
            lemma_listing_at(b, 0);
            assert(listing_model(a).dom().contains(b[0].0));
            let i = listing_index(a, b[0].0);
            assert(0 <= i < a.len());
        }
        assert(a =~= b);
    } else {
        lemma_listing_at(a, 0);
        let n = a[0].0;
        assert(listing_model(b).dom().contains(n));
        assert(listing_has(b, n));
        let j = listing_index(b, n);
        assert(0 <= j < b.len() && b[j].0 == n);
        lemma_listing_at(b, 0);
        assert(listing_model(a).dom().contains(b[0].0));
        assert(listing_has(a, b[0].0));
        let i = listing_index(a, b[0].0);
        assert(0 <= i < a.len() && a[i].0 == b[0].0);
        if j > 0 && i > 0 {
            assert(name_less(b[0].0, b[j].0));
            assert(name_less(a[0].0, a[i].0));
            lemma_name_less_asymmetric(b[0].0, a[0].0);
        }
        assert(a[0].0 == b[0].0);
        assert(ranges_set(a[0].1) == ranges_set(b[0].1));
        lemma_ranges_unique(a[0].1, b[0].1);
        assert(a[0] == b[0]);
        lemma_listing_tail(a);
        lemma_listing_tail(b);
        lemma_listing_unique(a.skip(1), b.skip(1));
        assert(a =~= seq![a[0]] + a.skip(1));
        assert(b =~= seq![b[0]] + b.skip(1));
    }
}

/// A listing is the listing of the entry that it describes.
pub proof fn lemma_canonical_listing(l: Listing)
    requires
        listing_wf(l),
    ensures
        canonical_listing(listing_model(l)) == l,
{
    let c = canonical_listing(listing_model(l));
    lemma_listing_unique(c, l);
}

// ---------------------------------------------------------------------
// The text of a listing
// ---------------------------------------------------------------------

/// The pieces that one protocol contributes to the text: its name, an
/// equals sign and its first range; then each further range by itself. A
/// protocol without versions contributes its name and the equals sign.
pub open spec fn item_pieces(n: Seq<char>, r: Seq<VersionRange>) -> Seq<Seq<char>> {
    if r.len() == 0 {
        seq![n.push('=')]
    } else {
        Seq::new(
            r.len(),
            |k: int|
                if k == 0 {
                    n.push('=') + range_text(r[0])
                } else {
                    range_text(r[k])
                },
        )
    }
}

/// The pieces of all the protocols of a listing, in its order.
pub open spec fn listing_pieces(l: Listing) -> Seq<Seq<char>>
    decreases l.len(),
{
    if l.len() == 0 {
        Seq::<Seq<char>>::empty()
    } else {
        listing_pieces(l.drop_last()) + item_pieces(l.last().0, l.last().1)
    }
}

/// The text of a listing: its pieces with commas between them.
pub open spec fn listing_text(l: Listing) -> Seq<char> {
    join(listing_pieces(l), ',')
}

/// The canonical text of an entry.
pub open spec fn entry_text(m: EntryModel) -> Seq<char> {
    listing_text(canonical_listing(m))
}

} // verus!
