//! What this implementation supports itself, and entries that name known
//! protocols only.

use vstd::prelude::*;
use crate::entry::{supports, UnvalidatedProtoEntry};
use crate::errors::ProtoverError;
use crate::listing::{
    entry_text,
    lemma_canonical_listing,
    lemma_listing_at,
    listing_model,
    listing_text,
    listing_wf,
    EntryModel,
    Listing,
};
use crate::parse::parse_text;
use crate::protocol::{
    lemma_protocol_names_differ,
    protocol_name,
    protocol_of_name,
    Protocol,
    UnknownProtocol,
};
use crate::protoset::{range_set, ProtoSet, Version};
use crate::roundtrip::{lemma_text_chars, name_ok, writable};
use crate::text::is_digit;

verus! {

/// The versions of each known protocol that this implementation supports.
pub open spec fn supported_versions(p: Protocol) -> Set<int> {
    match p {
        Protocol::Cons => range_set(1, 2),
        Protocol::Desc => range_set(1, 2),
        Protocol::DirCache => range_set(1, 2),
        Protocol::HSDir => range_set(1, 2),
        Protocol::HSIntro => range_set(3, 4),
        Protocol::HSRend => range_set(1, 2),
        Protocol::Link => range_set(1, 5),
        Protocol::LinkAuth => range_set(1, 1).union(range_set(3, 3)),
        Protocol::Microdesc => range_set(1, 2),
        Protocol::Relay => range_set(1, 2),
    }
}

/// The versions that this implementation supports of the protocol named
/// `n`: none, unless the name is a known one.
pub open spec fn locally_supported(n: Seq<char>) -> Set<int> {
    match protocol_of_name(n) {
        Some(p) => supported_versions(p),
        None => Set::<int>::empty(),
    }
}

/// The entry that says what this implementation supports.
pub open spec fn supported_model() -> EntryModel {
    Map::new(
        |n: Seq<char>| protocol_of_name(n) is Some,
        |n: Seq<char>| supported_versions(protocol_of_name(n)->Some_0),
    )
}

/// Whether every protocol that the entry names is a known one.
pub open spec fn all_known(m: EntryModel) -> bool {
    forall|n: Seq<char>| m.dom().contains(n) ==> protocol_of_name(n) is Some
}

/// The part of an entry that names known protocols.
pub open spec fn known_part(m: EntryModel) -> EntryModel {
    Map::new(
        |n: Seq<char>| m.dom().contains(n) && protocol_of_name(n) is Some,
        |n: Seq<char>| m[n],
    )
}

/// Whether this implementation supports all that the entry gives.
pub open spec fn fully_supported(m: EntryModel) -> bool {
    forall|n: Seq<char>, v: int| supports(m, n, v) ==> locally_supported(n).contains(v)
}

/// What the entry gives and this implementation does not support: each
/// protocol for which there is such a version, with those versions.
pub open spec fn unsupported_model(m: EntryModel) -> EntryModel {
    Map::new(
        |n: Seq<char>|
            m.dom().contains(n) && exists|v: int|
                m[n].contains(v) && !locally_supported(n).contains(v),
        |n: Seq<char>| m[n].difference(locally_supported(n)),
    )
}

/// This implementation supports all that it says it supports.
pub proof fn lemma_own_table_is_supported()
    ensures
        fully_supported(supported_model()),
{
}

/// What is left of an entry is what it gives and is not supported here:
/// a version is left exactly if the entry gives it and this implementation
/// does not support it.
pub proof fn lemma_unsupported_is_the_remainder(m: EntryModel, n: Seq<char>, v: int)
    ensures
        supports(unsupported_model(m), n, v) <==> supports(m, n, v) && !locally_supported(
            n,
        ).contains(v),
{
}

/// Whether `c` is a letter of the basic alphabet.
pub open spec fn is_letter(c: char) -> bool {
    ('a' <= c && c <= 'z') || ('A' <= c && c <= 'Z')
}

/// The characters that the text of an entry of known protocols is made
/// of: letters, digits, and the four signs of the grammar.
pub open spec fn is_text_char(c: char) -> bool {
    is_letter(c) || is_digit(c) || c == '-' || c == '=' || c == ','
}

/// The names of the known protocols are made of letters.
pub proof fn lemma_known_name_letters(p: Protocol, j: int)
    requires
        0 <= j < protocol_name(p).len(),
    ensures
        is_letter(protocol_name(p)[j]),
{
}

/// The names of the known protocols can be written.
pub proof fn lemma_known_name_ok(p: Protocol)
    ensures
        name_ok(protocol_name(p)),
{
    let n = protocol_name(p);
    if n.contains('=') {
        let j = choose|j: int| 0 <= j < n.len() && n[j] == '=';
        lemma_known_name_letters(p, j);
    }
    if n.contains(',') {
        let j = choose|j: int| 0 <= j < n.len() && n[j] == ',';
        lemma_known_name_letters(p, j);
    }
}

/// What this implementation says it supports can be written: every
/// protocol of the table has a name that can be written and a version.
pub proof fn lemma_supported_writable()
    ensures
        writable(supported_model()),
        supported_model().dom().contains(protocol_name(Protocol::Cons)),
{
    lemma_protocol_names_differ(Protocol::Cons, Protocol::Cons);
    assert forall|n: Seq<char>| #[trigger]
        supported_model().dom().contains(n) implies name_ok(n) && exists|v: int|
        supported_model()[n].contains(v) by {
        let p = protocol_of_name(n)->Some_0;
        assert(n == protocol_name(p));
        lemma_known_name_ok(p);
        let w: int = if p == Protocol::HSIntro {
            3
        } else {
            1
        };
        assert(range_set(1, 1).contains(1) && range_set(1, 2).contains(1) && range_set(
            1,
            5,
        ).contains(1) && range_set(3, 4).contains(3));
        assert(supported_versions(p).contains(w));
        assert(supported_model()[n].contains(w));
    }
}

/// The text of a listing of known protocols is made of letters, digits
/// and the four signs of the grammar.
pub proof fn lemma_known_text_chars(l: Listing, i: int)
    requires
        listing_wf(l),
        all_known(listing_model(l)),
        0 <= i < listing_text(l).len(),
    ensures
        is_text_char(listing_text(l)[i]),
{
    let c = listing_text(l)[i];
    assert(listing_text(l).contains(c));
    lemma_text_chars(l, c);
    if !(is_digit(c) || c == '-' || c == '=' || c == ',') {
        let k = choose|k: int| 0 <= k < l.len() && (#[trigger] l[k]).0.contains(c);
        lemma_listing_at(l, k);
        let n = l[k].0;
        assert(listing_model(l).dom().contains(n));
        let p = protocol_of_name(n)->Some_0;
        assert(n == protocol_name(p));
        let j = choose|j: int| 0 <= j < n.len() && n[j] == c;
        lemma_known_name_letters(p, j);
    }
}

/// Whether this implementation supports version `vers` of `proto`. The
/// answer is read off the protocol and the number; nothing is allocated.
pub fn is_supported_here(proto: &Protocol, vers: &Version) -> (b: bool)
    ensures
        b == supported_versions(*proto).contains(*vers as int),
{
    let v: Version = *vers;
    match proto {
        Protocol::HSIntro => 3 <= v && v <= 4,
        Protocol::Link => 1 <= v && v <= 5,
        Protocol::LinkAuth => v == 1 || v == 3,
        _ => 1 <= v && v <= 2,
    }
}

/// The versions of `proto` that this implementation supports, as a set.
pub fn supported_set(proto: &Protocol) -> (s: ProtoSet)
    ensures
        s.wf(),
        s@ == supported_versions(*proto),
{
    let mut s = ProtoSet::new();
    match proto {
        Protocol::HSIntro => {
            s.push_range(3, 4);
        },
        Protocol::Link => {
            s.push_range(1, 5);
        },
        Protocol::LinkAuth => {
            s.push_range(1, 1);
            s.push_range(3, 3);
        },
        _ => {
            s.push_range(1, 2);
        },
    }
    assert(s@ =~= supported_versions(*proto));
    s
}

/// The versions that this implementation supports of a protocol that
/// need not be a known one.
pub fn locally_supported_set(proto: &UnknownProtocol) -> (s: ProtoSet)
    ensures
        s.wf(),
        s@ == locally_supported(proto@),
{
    match proto.as_protocol() {
        Ok(p) => supported_set(&p),
        Err(_) => ProtoSet::new(),
    }
}

impl UnvalidatedProtoEntry {
    /// What the entry gives that this implementation does not support, or
    /// `None` if it supports all of it.
    pub fn all_supported(&self) -> (r: Option<UnvalidatedProtoEntry>)
        requires
            self.wf(),
        ensures
            r is None == fully_supported(self@),
            r matches Some(u) ==> u.wf() && u@ == unsupported_model(self@),
    {
        let ghost goal = unsupported_model(self@);
        let ghost l = self.listing();
        let mut result = UnvalidatedProtoEntry::new();
        let n = self.len();
        let mut i: usize = 0;
        while i < n
            invariant
                self.wf(),
                l == self.listing(),
                goal == unsupported_model(self@),
                n == l.len(),
                i <= n,
                result.wf(),
                forall|m: Seq<char>| #[trigger]
                    result@.dom().contains(m) ==> goal.dom().contains(m) && result@[m] == goal[m],
                forall|j: int|
                    0 <= j < i && goal.dom().contains((#[trigger] l[j]).0)
                        ==> result@.dom().contains(l[j].0),
            decreases n - i,
        {
            let name = self.name_at(i);
            let set = self.set_at(i);
            proof {
                lemma_listing_at(l, i as int);
            }
            let local = locally_supported_set(&name);
            let rest = set.difference(&local);
            if !rest.is_empty() {
                proof {
                    assert(exists|v: int| rest@.contains(v)) by {
                        if forall|v: int| !rest@.contains(v) {
                            assert(rest@ =~= Set::<int>::empty());
                        }
                    }
                    let v = choose|v: int| rest@.contains(v);
                    assert(self@[name@].contains(v) && !locally_supported(name@).contains(v));
                    assert(goal.dom().contains(name@));
                }
                result.insert(name, rest);
            } else {
                proof {
                    if goal.dom().contains(name@) {
                        let v = choose|v: int|
                            self@[name@].contains(v) && !locally_supported(name@).contains(v);
                        assert(rest@.contains(v));
                    }
                }
            }
            i = i + 1;
        }
        proof {
            assert forall|m: Seq<char>| goal.dom().contains(m) implies result@.dom().contains(
                m,
            ) by {
                crate::entry::lemma_entry_names(*self, m);
                let j = choose|j: int| 0 <= j < l.len() && (#[trigger] l[j]).0 == m;
                assert(goal.dom().contains(l[j].0));
            }
            assert(result@ =~= goal);
            if fully_supported(self@) {
                assert forall|m: Seq<char>| !goal.dom().contains(m) by {
                    if goal.dom().contains(m) {
                        let v = choose|v: int|
                            self@[m].contains(v) && !locally_supported(m).contains(v);
                        assert(supports(self@, m, v));
                    }
                }
                assert(goal =~= Map::<Seq<char>, Set<int>>::empty());
            } else {
                let (m, v) = choose|m: Seq<char>, v: int|
                    supports(self@, m, v) && !locally_supported(m).contains(v);
                assert(self@[m].contains(v) && !locally_supported(m).contains(v));
                assert(goal.dom().contains(m));
            }
        }
        if result.is_empty() {
            None
        } else {
            Some(result)
        }
    }
}

/// An entry that names known protocols only.
#[derive(Debug, PartialEq, Eq)]
pub struct ProtoEntry {
    inner: UnvalidatedProtoEntry,
}

impl View for ProtoEntry {
    type V = EntryModel;

    /// The versions given for each protocol that the entry names.
    open spec fn view(&self) -> EntryModel {
        listing_model(self.listing())
    }
}

impl ProtoEntry {
    /// The protocols of the entry as they are kept, with their ranges.
    pub closed spec fn listing(&self) -> Listing {
        self.inner.listing()
    }

    /// The entry is kept in canonical form and names known protocols only.
    pub open spec fn wf(&self) -> bool {
        listing_wf(self.listing()) && all_known(self@)
    }

    /// The entry that names no protocol.
    pub fn new() -> (e: ProtoEntry)
        ensures
            e.wf(),
            e.listing().len() == 0,
            e@ == Map::<Seq<char>, Set<int>>::empty(),
    {
        ProtoEntry { inner: UnvalidatedProtoEntry::new() }
    }

    /// A copy of the entry.
    pub fn duplicate(&self) -> (e: ProtoEntry)
        ensures
            e.listing() == self.listing(),
            e@ == self@,
            e.wf() == self.wf(),
    {
        ProtoEntry { inner: self.inner.duplicate() }
    }

    /// What this implementation supports.
    pub fn supported() -> (e: ProtoEntry)
        ensures
            e.wf(),
            e@ == supported_model(),
    {
        let mut inner = UnvalidatedProtoEntry::new();
        inner.insert(UnknownProtocol::from_protocol(Protocol::Cons), supported_set(&Protocol::Cons));
        inner.insert(UnknownProtocol::from_protocol(Protocol::Desc), supported_set(&Protocol::Desc));
        inner.insert(
            UnknownProtocol::from_protocol(Protocol::DirCache),
            supported_set(&Protocol::DirCache),
        );
        inner.insert(
            UnknownProtocol::from_protocol(Protocol::HSDir),
            supported_set(&Protocol::HSDir),
        );
        inner.insert(
            UnknownProtocol::from_protocol(Protocol::HSIntro),
            supported_set(&Protocol::HSIntro),
        );
        inner.insert(
            UnknownProtocol::from_protocol(Protocol::HSRend),
            supported_set(&Protocol::HSRend),
        );
        inner.insert(UnknownProtocol::from_protocol(Protocol::Link), supported_set(&Protocol::Link));
        inner.insert(
            UnknownProtocol::from_protocol(Protocol::LinkAuth),
            supported_set(&Protocol::LinkAuth),
        );
        inner.insert(
            UnknownProtocol::from_protocol(Protocol::Microdesc),
            supported_set(&Protocol::Microdesc),
        );
        inner.insert(
            UnknownProtocol::from_protocol(Protocol::Relay),
            supported_set(&Protocol::Relay),
        );
        proof {
            lemma_protocol_names_differ(Protocol::Cons, Protocol::Cons);
            lemma_protocol_names_differ(Protocol::Desc, Protocol::Cons);
            lemma_protocol_names_differ(Protocol::DirCache, Protocol::Cons);
            lemma_protocol_names_differ(Protocol::HSDir, Protocol::Cons);
            lemma_protocol_names_differ(Protocol::HSIntro, Protocol::Cons);
            lemma_protocol_names_differ(Protocol::HSRend, Protocol::Cons);
            lemma_protocol_names_differ(Protocol::Link, Protocol::Cons);
            lemma_protocol_names_differ(Protocol::LinkAuth, Protocol::Cons);
            lemma_protocol_names_differ(Protocol::Microdesc, Protocol::Cons);
            lemma_protocol_names_differ(Protocol::Relay, Protocol::Cons);
            assert(inner@ =~= supported_model());
        }
        ProtoEntry { inner }
    }

    /// The entry `e`, if it names known protocols only.
    pub fn from_unvalidated(e: UnvalidatedProtoEntry) -> (r: Result<ProtoEntry, ProtoverError>)
        requires
            e.wf(),
        ensures
            all_known(e@) ==> r is Ok && r->Ok_0.wf() && r->Ok_0@ == e@ && r->Ok_0.listing()
                == e.listing(),
            !all_known(e@) ==> r is Err && r->Err_0 == ProtoverError::UnknownProtocol,
    {
        let n = e.len();
        let mut i: usize = 0;
        while i < n
            invariant
                e.wf(),
                n == e.listing().len(),
                i <= n,
                forall|j: int|
                    0 <= j < i ==> protocol_of_name((#[trigger] e.listing()[j]).0) is Some,
            decreases n - i,
        {
            let name = e.name_at(i);
            if name.as_protocol().is_err() {
                proof {
                    lemma_listing_at(e.listing(), i as int);
                }
                return Err(ProtoverError::UnknownProtocol);
            }
            i = i + 1;
        }
        proof {
            assert forall|m: Seq<char>| e@.dom().contains(m) implies protocol_of_name(
                m,
            ) is Some by {
                crate::entry::lemma_entry_names(e, m);
                let j = choose|j: int|
                    0 <= j < e.listing().len() && (#[trigger] e.listing()[j]).0 == m;
                assert(protocol_of_name(e.listing()[j].0) is Some);
            }
        }
        Ok(ProtoEntry { inner: e })
    }

    /// What `e` says of known protocols; what it says of others is left
    /// out.
    pub fn from_known(e: &UnvalidatedProtoEntry) -> (r: ProtoEntry)
        requires
            e.wf(),
        ensures
            r.wf(),
            r@ == known_part(e@),
    {
        let ghost goal = known_part(e@);
        let ghost l = e.listing();
        let mut inner = UnvalidatedProtoEntry::new();
        let n = e.len();
        let mut i: usize = 0;
        while i < n
            invariant
                e.wf(),
                l == e.listing(),
                goal == known_part(e@),
                n == l.len(),
                i <= n,
                inner.wf(),
                forall|m: Seq<char>| #[trigger]
                    inner@.dom().contains(m) ==> goal.dom().contains(m) && inner@[m] == goal[m],
                forall|j: int|
                    0 <= j < i && goal.dom().contains((#[trigger] l[j]).0) ==> inner@.dom().contains(
                        l[j].0,
                    ),
            decreases n - i,
        {
            let name = e.name_at(i);
            proof {
                lemma_listing_at(l, i as int);
            }
            if name.as_protocol().is_ok() {
                let set = e.set_at(i).duplicate();
                inner.insert(name, set);
            }
            i = i + 1;
        }
        proof {
            assert forall|m: Seq<char>| goal.dom().contains(m) implies inner@.dom().contains(
                m,
            ) by {
                crate::entry::lemma_entry_names(*e, m);
                let j = choose|j: int| 0 <= j < l.len() && (#[trigger] l[j]).0 == m;
                assert(goal.dom().contains(l[j].0));
            }
            assert(inner@ =~= goal);
        }
        ProtoEntry { inner }
    }

    /// The protocols that the entry names, each once, in the order of
    /// their names: the protocol at a place of the result is the one that
    /// the listing names at that place.
    pub fn protocols(&self) -> (r: Vec<Protocol>)
        requires
            self.wf(),
        ensures
            r@.len() == self.listing().len(),
            forall|i: int|
                0 <= i < r@.len() ==> protocol_name(#[trigger] r@[i]) == self.listing()[i].0,
            forall|p: Protocol| r@.contains(p) <==> self@.dom().contains(protocol_name(p)),
    {
        let ghost l = self.inner.listing();
        let mut r: Vec<Protocol> = Vec::new();
        let n = self.inner.len();
        let mut i: usize = 0;
        while i < n
            invariant
                self.wf(),
                l == self.inner.listing(),
                n == l.len(),
                i <= n,
                r@.len() == i,
                forall|k: int| 0 <= k < i ==> protocol_name(#[trigger] r@[k]) == l[k].0,
            decreases n - i,
        {
            let name = self.inner.name_at(i);
            proof {
                lemma_listing_at(l, i as int);
                assert(self@.dom().contains(name@));
            }
            match name.as_protocol() {
                Ok(q) => {
                    r.push(q);
                },
                Err(_) => {},
            }
            i = i + 1;
        }
        proof {
            assert forall|p: Protocol|
                r@.contains(p) <==> self@.dom().contains(protocol_name(p)) by {
                lemma_protocol_names_differ(p, p);
                if self@.dom().contains(protocol_name(p)) {
                    crate::entry::lemma_entry_names(self.inner, protocol_name(p));
                    let j = choose|j: int| 0 <= j < n && (#[trigger] l[j]).0 == protocol_name(p);
                    lemma_protocol_names_differ(r@[j], p);
                    assert(r@[j] == p);
                }
                if r@.contains(p) {
                    let j = choose|j: int| 0 <= j < r@.len() && r@[j] == p;
                    lemma_listing_at(l, j);
                }
            }
        }
        r
    }

    /// Reads an entry that names known protocols only.
    pub fn from_str(s: &str) -> (r: Result<ProtoEntry, ProtoverError>)
        ensures
            match parse_text(s@) {
                Err(e) => r is Err && r->Err_0 == e,
                Ok(m) => if all_known(m) {
                    r is Ok && r->Ok_0.wf() && r->Ok_0@ == m
                } else {
                    r is Err && r->Err_0 == ProtoverError::UnknownProtocol
                },
            },
    {
        match UnvalidatedProtoEntry::from_str(s) {
            Err(e) => Err(e),
            Ok(e) => Self::from_unvalidated(e),
        }
    }

    /// The same entry, as one that may name any protocol.
    pub fn as_unvalidated(&self) -> (e: &UnvalidatedProtoEntry)
        requires
            self.wf(),
        ensures
            e.wf(),
            e.listing() == self.listing(),
            e@ == self@,
    {
        &self.inner
    }

    /// How many protocols the entry names.
    pub fn len(&self) -> (n: usize)
        requires
            self.wf(),
        ensures
            n == self.listing().len(),
            (n == 0) == (self@ == Map::<Seq<char>, Set<int>>::empty()),
    {
        let _ = self.inner.is_empty();
        self.inner.len()
    }

    /// Whether the entry names no protocol.
    pub fn is_empty(&self) -> (b: bool)
        requires
            self.wf(),
        ensures
            b == (self.listing().len() == 0),
            b == (self@ == Map::<Seq<char>, Set<int>>::empty()),
    {
        self.inner.is_empty()
    }

    /// The versions that the entry gives for `proto`, if it names it.
    pub fn get(&self, proto: &Protocol) -> (r: Option<&ProtoSet>)
        requires
            self.wf(),
        ensures
            r is Some == self@.dom().contains(protocol_name(*proto)),
            r matches Some(s) ==> s.wf() && s@ == self@[protocol_name(*proto)],
    {
        self.inner.get(&UnknownProtocol::from_protocol(*proto))
    }

    /// Gives `proto` the versions of `set`, in place of those it had.
    pub fn insert(&mut self, proto: Protocol, set: ProtoSet)
        requires
            old(self).wf(),
            set.wf(),
        ensures
            final(self).wf(),
            final(self)@ == old(self)@.insert(protocol_name(proto), set@),
    {
        proof {
            lemma_protocol_names_differ(proto, proto);
        }
        self.inner.insert(UnknownProtocol::from_protocol(proto), set);
    }

    /// Whether the entry gives version `vers` for `proto`.
    pub fn supports_protocol(&self, proto: &Protocol, vers: &Version) -> (b: bool)
        requires
            self.wf(),
        ensures
            b == supports(self@, protocol_name(*proto), *vers as int),
    {
        self.inner.supports_protocol(&UnknownProtocol::from_protocol(*proto), vers)
    }

    /// The canonical text of the entry. It is made of letters, digits
    /// and the four signs of the grammar, so it holds no character that
    /// could end a text early.
    pub fn to_string(&self) -> (s: String)
        requires
            self.wf(),
        ensures
            s@ == entry_text(self@),
            forall|i: int| 0 <= i < s@.len() ==> is_text_char(#[trigger] s@[i]),
            !s@.contains('\0'),
    {
        let s = self.inner.to_string();
        proof {
            let l = self.inner.listing();
            lemma_canonical_listing(l);
            assert forall|i: int| 0 <= i < s@.len() implies is_text_char(#[trigger] s@[i]) by {
                lemma_known_text_chars(l, i);
            }
            if s@.contains('\0') {
                let i = choose|i: int| 0 <= i < s@.len() && s@[i] == '\0';
                assert(is_text_char(s@[i]));
            }
        }
        s
    }
}

} // verus!
