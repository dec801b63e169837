//! Entries: what one party says it supports, protocol by protocol.

use vstd::prelude::*;
use crate::listing::{
    entry_text,
    item_pieces,
    lemma_canonical_listing,
    lemma_insert_wf,
    lemma_listing_at,
    lemma_model_empty,
    lemma_model_insert,
    lemma_model_update,
    listing_index,
    listing_model,
    listing_pieces,
    listing_text,
    listing_wf,
    EntryModel,
    Listing,
};
use crate::protocol::{compare_names, name_less, NameOrder, UnknownProtocol};
use crate::protoset::{lemma_ranges_bounded, write_range, ProtoSet, Version, VersionRange};
use crate::text::{append_chars, join, lemma_join_push, string_of, MAX_VERSION};

verus! {

/// Whether the entry `m` gives version `v` for the protocol named `n`.
pub open spec fn supports(m: EntryModel, n: Seq<char>, v: int) -> bool {
    m.dom().contains(n) && m[n].contains(v)
}

/// Whether the entry `m` gives, for the protocol named `n`, version `v`
/// or a later one. Versions missing in between do not matter.
pub open spec fn supports_or_later(m: EntryModel, n: Seq<char>, v: int) -> bool {
    m.dom().contains(n) && exists|w: int| w >= v && m[n].contains(w)
}

/// The entries that a sequence of entries holds.
pub open spec fn models(entries: Seq<UnvalidatedProtoEntry>) -> Seq<EntryModel> {
    Seq::new(entries.len(), |i: int| entries[i]@)
}

/// Whether every entry of the sequence is well formed.
pub open spec fn all_wf(entries: Seq<UnvalidatedProtoEntry>) -> bool {
    forall|i: int| 0 <= i < entries.len() ==> (#[trigger] entries[i]).wf()
}

/// The versions that an entry gives are within the limit.
pub proof fn lemma_entry_bounded(e: UnvalidatedProtoEntry, n: Seq<char>, v: int)
    requires
        e.wf(),
        supports(e@, n, v),
    ensures
        0 <= v <= MAX_VERSION,
{
    let l = e.listing();
    let k = listing_index(l, n);
    assert(0 <= k < l.len() && l[k].0 == n);
    lemma_listing_at(l, k);
    lemma_ranges_bounded(l[k].1, v);
}

/// A protocol that an entry names stands somewhere in its listing.
pub proof fn lemma_entry_names(e: UnvalidatedProtoEntry, n: Seq<char>)
    requires
        e@.dom().contains(n),
    ensures
        exists|k: int| 0 <= k < e.listing().len() && (#[trigger] e.listing()[k]).0 == n,
{
}

/// One protocol of an entry, with its versions.
#[derive(Debug, PartialEq, Eq)]
struct Slot {
    name: Vec<char>,
    set: ProtoSet,
}

/// An entry that may name any protocol, known or not. This is the form in
/// which a text received from elsewhere is held. Two entries are equal
/// exactly if they give the same versions for the same protocols, since an
/// entry is kept in one way only.
#[derive(Debug, PartialEq, Eq)]
pub struct UnvalidatedProtoEntry {
    slots: Vec<Slot>,
}

impl View for UnvalidatedProtoEntry {
    type V = EntryModel;

    /// The versions given for each protocol that the entry names.
    open spec fn view(&self) -> EntryModel {
        listing_model(self.listing())
    }
}

impl UnvalidatedProtoEntry {
    /// The protocols of the entry as they are kept, with their ranges.
    pub closed spec fn listing(&self) -> Listing {
        Seq::new(
            self.slots@.len(),
            |i: int| (self.slots@[i].name@, self.slots@[i].set.ranges()),
        )
    }

    /// The protocols are kept in the order of their names, each once, and
    /// each with canonical ranges.
    pub open spec fn wf(&self) -> bool {
        listing_wf(self.listing())
    }

    /// The entry that names no protocol.
    pub fn new() -> (e: UnvalidatedProtoEntry)
        ensures
            e.wf(),
            e.listing().len() == 0,
            e@ == Map::<Seq<char>, Set<int>>::empty(),
    {
        let e = UnvalidatedProtoEntry { slots: Vec::new() };
        proof {
            lemma_model_empty();
            assert(e.listing() =~= Seq::<(Seq<char>, Seq<VersionRange>)>::empty());
        }
        e
    }

    /// A copy of the entry.
    pub fn duplicate(&self) -> (e: UnvalidatedProtoEntry)
        ensures
            e.listing() == self.listing(),
            e@ == self@,
            e.wf() == self.wf(),
    {
        let mut slots: Vec<Slot> = Vec::new();
        let mut i: usize = 0;
        while i < self.slots.len()
            invariant
                i <= self.slots.len(),
                slots@.len() == i,
                forall|k: int|
                    0 <= k < i ==> (#[trigger] slots@[k]).name@ == self.slots@[k].name@
                        && slots@[k].set.ranges() == self.slots@[k].set.ranges(),
            decreases self.slots.len() - i,
        {
            slots.push(
                Slot { name: self.slots[i].name.clone(), set: self.slots[i].set.duplicate() },
            );
            i = i + 1;
        }
        let e = UnvalidatedProtoEntry { slots };
        assert(e.listing() =~= self.listing());
        e
    }

    /// How many protocols the entry names.
    pub fn len(&self) -> (n: usize)
        ensures
            n == self.listing().len(),
    {
        self.slots.len()
    }

    /// Whether the entry names no protocol.
    pub fn is_empty(&self) -> (b: bool)
        requires
            self.wf(),
        ensures
            b == (self.listing().len() == 0),
            b == (self@ == Map::<Seq<char>, Set<int>>::empty()),
    {
        proof {
            if self.listing().len() > 0 {
                lemma_listing_at(self.listing(), 0);
            } else {
                lemma_model_empty();
                assert(self.listing() =~= Seq::<(Seq<char>, Seq<VersionRange>)>::empty());
            }
        }
        self.slots.len() == 0
    }

    /// The name at place `i` of the listing.
    pub fn name_at(&self, i: usize) -> (p: UnknownProtocol)
        requires
            i < self.listing().len(),
        ensures
            p@ == self.listing()[i as int].0,
    {
        UnknownProtocol::from_chars(self.slots[i].name.clone())
    }

    /// The versions at place `i` of the listing.
    pub fn set_at(&self, i: usize) -> (s: &ProtoSet)
        requires
            i < self.listing().len(),
        ensures
            s.ranges() == self.listing()[i as int].1,
    {
        &self.slots[i].set
    }

    /// Where `name` stands in the listing, or would stand, and whether it
    /// is there.
    fn position(&self, name: &Vec<char>) -> (r: (usize, bool))
        ensures
            r.0 <= self.listing().len(),
            forall|k: int| 0 <= k < r.0 ==> name_less((#[trigger] self.listing()[k]).0, name@),
            r.1 ==> r.0 < self.listing().len() && self.listing()[r.0 as int].0 == name@,
            !r.1 && r.0 < self.listing().len() ==> name_less(
                name@,
                self.listing()[r.0 as int].0,
            ),
    {
        let mut i: usize = 0;
        while i < self.slots.len()
            invariant
                i <= self.slots.len(),
                forall|k: int| 0 <= k < i ==> name_less((#[trigger] self.listing()[k]).0, name@),
            decreases self.slots.len() - i,
        {
            match compare_names(&self.slots[i].name, name) {
                NameOrder::Before => {},
                NameOrder::Same => {
                    return (i, true);
                },
                NameOrder::After => {
                    return (i, false);
                },
            }
            i = i + 1;
        }
        (i, false)
    }

    /// The versions that the entry gives for `proto`, if it names it.
    pub fn get(&self, proto: &UnknownProtocol) -> (r: Option<&ProtoSet>)
        requires
            self.wf(),
        ensures
            r is Some == self@.dom().contains(proto@),
            r matches Some(s) ==> s.wf() && s@ == self@[proto@],
    {
        let (p, found) = self.position(proto.chars());
        if found {
            proof {
                lemma_listing_at(self.listing(), p as int);
            }
            Some(&self.slots[p].set)
        } else {
            proof {
                lemma_insert_wf(
                    self.listing(),
                    p as int,
                    (proto@, Seq::<VersionRange>::empty()),
                );
            }
            None
        }
    }

    /// Gives `proto` the versions of `set`, in place of those it had.
    pub fn insert(&mut self, proto: UnknownProtocol, set: ProtoSet)
        requires
            old(self).wf(),
            set.wf(),
        ensures
            final(self).wf(),
            final(self)@ == old(self)@.insert(proto@, set@),
    {
        let (p, found) = self.position(proto.chars());
        let ghost l = self.listing();
        let ghost x = (proto@, set.ranges());
        let slot = Slot { name: proto.into_chars(), set };
        if found {
            self.slots.set(p, slot);
            proof {
                assert(self.listing() =~= l.update(p as int, x));
                lemma_model_update(l, p as int, x);
            }
        } else {
            self.slots.insert(p, slot);
            proof {
                assert(self.listing() =~= l.insert(p as int, x));
                lemma_insert_wf(l, p as int, x);
                lemma_model_insert(l, p as int, x);
            }
        }
    }

    /// Whether the entry gives version `vers` for `proto`.
    pub fn supports_protocol(&self, proto: &UnknownProtocol, vers: &Version) -> (b: bool)
        requires
            self.wf(),
        ensures
            b == supports(self@, proto@, *vers as int),
    {
        match self.get(proto) {
            Some(s) => s.contains(*vers),
            None => false,
        }
    }

    /// Whether the entry gives version `vers` or a later one for `proto`.
    pub fn supports_protocol_or_later(&self, proto: &UnknownProtocol, vers: &Version) -> (b:
        bool)
        requires
            self.wf(),
        ensures
            b == supports_or_later(self@, proto@, *vers as int),
    {
        match self.get(proto) {
            Some(s) => {
                match s.max() {
                    Some(h) => {
                        proof {
                            if h >= *vers {
                                assert(h >= *vers && self@[proto@].contains(h as int));
                            }
                        }
                        h >= *vers
                    },
                    None => false,
                }
            },
            None => false,
        }
    }

    /// The characters of the canonical text of the entry.
    pub fn to_chars(&self) -> (out: Vec<char>)
        ensures
            out@ == listing_text(self.listing()),
    {
        let mut out: Vec<char> = Vec::new();
        let ghost mut pieces: Seq<Seq<char>> = Seq::empty();
        let mut first: bool = true;
        let n = self.slots.len();
        let mut i: usize = 0;
        assert(self.listing().take(0) =~= Seq::<(Seq<char>, Seq<VersionRange>)>::empty());
        while i < n
            invariant
                i <= n,
                n == self.slots@.len(),
                out@ == join(pieces, ','),
                first == (pieces.len() == 0),
                pieces == listing_pieces(self.listing().take(i as int)),
            decreases n - i,
        {
            let slot = &self.slots[i];
            let ghost nm = slot.name@;
            let ghost rs = slot.set.ranges();
            let ghost base = pieces;
            proof {
                assert(self.listing().take(i + 1).drop_last() =~= self.listing().take(i as int));
                assert(self.listing().take(i + 1).last() == (nm, rs));
            }
            let m = slot.set.range_count();
            if m == 0 {
                let ghost start = out@;
                if !first {
                    out.push(',');
                }
                append_chars(&mut out, &slot.name);
                out.push('=');
                proof {
                    let piece = nm.push('=');
                    lemma_join_push(base, piece, ',');
                    pieces = base.push(piece);
                    assert(out@ =~= join(pieces, ','));
                    assert(pieces =~= base + item_pieces(nm, rs));
                }
                first = false;
            } else {
                let mut k: usize = 0;
                assert(base + item_pieces(nm, rs).take(0) =~= base);
                while k < m
                    invariant
                        k <= m,
                        m == rs.len(),
                        m > 0,
                        i < n,
                        n == self.slots@.len(),
                        slot == &self.slots@[i as int],
                        nm == slot.name@,
                        rs == slot.set.ranges(),
                        out@ == join(pieces, ','),
                        first == (pieces.len() == 0),
                        pieces == base + item_pieces(nm, rs).take(k as int),
                    decreases m - k,
                {
                    let ghost before = pieces;
                    let ghost start = out@;
                    if !first {
                        out.push(',');
                    }
                    if k == 0 {
                        append_chars(&mut out, &slot.name);
                        out.push('=');
                    }
                    write_range(&mut out, slot.set.range_at(k));
                    proof {
                        let piece = item_pieces(nm, rs)[k as int];
                        lemma_join_push(before, piece, ',');
                        pieces = before.push(piece);
                        assert(out@ =~= join(pieces, ','));
                        assert(item_pieces(nm, rs).take(k + 1) =~= item_pieces(nm, rs).take(
                            k as int,
                        ).push(piece));
                        assert(pieces =~= base + item_pieces(nm, rs).take(k + 1));
                    }
                    first = false;
                    k = k + 1;
                }
                proof {
                    assert(item_pieces(nm, rs).take(m as int) =~= item_pieces(nm, rs));
                }
            }
            i = i + 1;
        }
        assert(self.listing().take(n as int) =~= self.listing());
        out
    }

    /// The canonical text of the entry: the protocols in the order of their
    /// names, each as its name, an equals sign and its ranges, with commas
    /// between ranges and between protocols.
    pub fn to_string(&self) -> (s: String)
        requires
            self.wf(),
        ensures
            s@ == entry_text(self@),
    {
        proof {
            lemma_canonical_listing(self.listing());
        }
        string_of(&self.to_chars())
    }
}

} // verus!
