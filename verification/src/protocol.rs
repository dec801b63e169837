//! Protocol names: the ten that this implementation knows, and any other.

use vstd::prelude::*;
use crate::errors::ProtoverError;
use crate::text::{chars_eq, chars_of, string_of};

verus! {

/// A protocol that this implementation knows by name.
#[derive(Clone, Copy, Debug, PartialEq, Eq, Hash, Structural)]
pub enum Protocol {
    Cons,
    Desc,
    DirCache,
    HSDir,
    HSIntro,
    HSRend,
    Link,
    LinkAuth,
    Microdesc,
    Relay,
}

/// The name under which a known protocol is advertised.
pub open spec fn protocol_name(p: Protocol) -> Seq<char> {
    match p {
        Protocol::Cons => seq!['C', 'o', 'n', 's'],
        Protocol::Desc => seq!['D', 'e', 's', 'c'],
        Protocol::DirCache => seq!['D', 'i', 'r', 'C', 'a', 'c', 'h', 'e'],
        Protocol::HSDir => seq!['H', 'S', 'D', 'i', 'r'],
        Protocol::HSIntro => seq!['H', 'S', 'I', 'n', 't', 'r', 'o'],
        Protocol::HSRend => seq!['H', 'S', 'R', 'e', 'n', 'd'],
        Protocol::Link => seq!['L', 'i', 'n', 'k'],
        Protocol::LinkAuth => seq!['L', 'i', 'n', 'k', 'A', 'u', 't', 'h'],
        Protocol::Microdesc => seq!['M', 'i', 'c', 'r', 'o', 'd', 'e', 's', 'c'],
        Protocol::Relay => seq!['R', 'e', 'l', 'a', 'y'],
    }
}

/// The known protocol with exactly this name, if there is one.
pub open spec fn protocol_of_name(n: Seq<char>) -> Option<Protocol> {
    if n == protocol_name(Protocol::Cons) {
        Some(Protocol::Cons)
    } else if n == protocol_name(Protocol::Desc) {
        Some(Protocol::Desc)
    } else if n == protocol_name(Protocol::DirCache) {
        Some(Protocol::DirCache)
    } else if n == protocol_name(Protocol::HSDir) {
        Some(Protocol::HSDir)
    } else if n == protocol_name(Protocol::HSIntro) {
        Some(Protocol::HSIntro)
    } else if n == protocol_name(Protocol::HSRend) {
        Some(Protocol::HSRend)
    } else if n == protocol_name(Protocol::Link) {
        Some(Protocol::Link)
    } else if n == protocol_name(Protocol::LinkAuth) {
        Some(Protocol::LinkAuth)
    } else if n == protocol_name(Protocol::Microdesc) {
        Some(Protocol::Microdesc)
    } else if n == protocol_name(Protocol::Relay) {
        Some(Protocol::Relay)
    } else {
        None
    }
}

/// No two known protocols share a name.
pub proof fn lemma_protocol_names_differ(p: Protocol, q: Protocol)
    ensures
        protocol_name(p) == protocol_name(q) ==> p == q,
        protocol_of_name(protocol_name(p)) == Some(p),
{
    let c = protocol_name(Protocol::Cons);
    let d = protocol_name(Protocol::Desc);
    let dc = protocol_name(Protocol::DirCache);
    let hd = protocol_name(Protocol::HSDir);
    let hi = protocol_name(Protocol::HSIntro);
    let hr = protocol_name(Protocol::HSRend);
    let l = protocol_name(Protocol::Link);
    let la = protocol_name(Protocol::LinkAuth);
    let m = protocol_name(Protocol::Microdesc);
    let r = protocol_name(Protocol::Relay);
    assert(c[0] == 'C' && d[0] == 'D' && dc[0] == 'D' && hd[0] == 'H' && hi[0] == 'H' && hr[0]
        == 'H' && l[0] == 'L' && la[0] == 'L' && m[0] == 'M' && r[0] == 'R');
    assert(c.len() == 4 && d.len() == 4 && dc.len() == 8 && hd.len() == 5 && hi.len() == 7
        && hr.len() == 6 && l.len() == 4 && la.len() == 8 && m.len() == 9 && r.len() == 5);
}

impl Protocol {
    /// The characters of the protocol's name.
    pub fn name(&self) -> (v: Vec<char>)
        ensures
            v@ == protocol_name(*self),
    {
        let v = match self {
            Protocol::Cons => vec!['C', 'o', 'n', 's'],
            Protocol::Desc => vec!['D', 'e', 's', 'c'],
            Protocol::DirCache => vec!['D', 'i', 'r', 'C', 'a', 'c', 'h', 'e'],
            Protocol::HSDir => vec!['H', 'S', 'D', 'i', 'r'],
            Protocol::HSIntro => vec!['H', 'S', 'I', 'n', 't', 'r', 'o'],
            Protocol::HSRend => vec!['H', 'S', 'R', 'e', 'n', 'd'],
            Protocol::Link => vec!['L', 'i', 'n', 'k'],
            Protocol::LinkAuth => vec!['L', 'i', 'n', 'k', 'A', 'u', 't', 'h'],
            Protocol::Microdesc => vec!['M', 'i', 'c', 'r', 'o', 'd', 'e', 's', 'c'],
            Protocol::Relay => vec!['R', 'e', 'l', 'a', 'y'],
        };
        assert(v@ =~= protocol_name(*self));
        v
    }

    /// The protocol's name.
    pub fn to_string(&self) -> (s: String)
        ensures
            s@ == protocol_name(*self),
    {
        string_of(&self.name())
    }

    /// The known protocol with exactly the name `s`.
    pub fn from_str(s: &str) -> (r: Result<Protocol, ProtoverError>)
        ensures
            r == known_protocol(s@),
    {
        UnknownProtocol::new(s).as_protocol()
    }
}

/// The known protocol with exactly this name, or the error that says
/// there is none.
pub open spec fn known_protocol(n: Seq<char>) -> Result<Protocol, ProtoverError> {
    match protocol_of_name(n) {
        Some(p) => Ok(p),
        None => Err(ProtoverError::UnknownProtocol),
    }
}

/// The name of a protocol that need not be one of the known ones. The name
/// is kept as it was given and is never taken for another.
#[derive(Debug, PartialEq, Eq, Hash)]
pub struct UnknownProtocol {
    name: Vec<char>,
}

impl View for UnknownProtocol {
    type V = Seq<char>;

    /// The characters of the name.
    closed spec fn view(&self) -> Seq<char> {
        self.name@
    }
}

impl UnknownProtocol {
    /// The protocol named `s`.
    pub fn new(s: &str) -> (r: UnknownProtocol)
        ensures
            r@ == s@,
    {
        UnknownProtocol { name: chars_of(s) }
    }

    /// The protocol whose name is made of the characters of `name`.
    pub fn from_chars(name: Vec<char>) -> (r: UnknownProtocol)
        ensures
            r@ == name@,
    {
        UnknownProtocol { name }
    }

    /// A known protocol, by its name.
    pub fn from_protocol(p: Protocol) -> (r: UnknownProtocol)
        ensures
            r@ == protocol_name(p),
    {
        UnknownProtocol { name: p.name() }
    }

    /// The characters of the name.
    pub fn chars(&self) -> (v: &Vec<char>)
        ensures
            v@ == self@,
    {
        &self.name
    }

    /// The characters of the name, given away.
    pub fn into_chars(self) -> (v: Vec<char>)
        ensures
            v@ == self@,
    {
        self.name
    }

    /// The name.
    pub fn to_string(&self) -> (s: String)
        ensures
            s@ == self@,
    {
        string_of(&self.name)
    }

    /// A copy of the name.
    pub fn duplicate(&self) -> (r: UnknownProtocol)
        ensures
            r@ == self@,
    {
        UnknownProtocol { name: self.name.clone() }
    }

    /// The known protocol that has exactly this name.
    pub fn as_protocol(&self) -> (r: Result<Protocol, ProtoverError>)
        ensures
            r == known_protocol(self@),
    {
        if chars_eq(&self.name, &Protocol::Cons.name()) {
            Ok(Protocol::Cons)
        } else if chars_eq(&self.name, &Protocol::Desc.name()) {
            Ok(Protocol::Desc)
        } else if chars_eq(&self.name, &Protocol::DirCache.name()) {
            Ok(Protocol::DirCache)
        } else if chars_eq(&self.name, &Protocol::HSDir.name()) {
            Ok(Protocol::HSDir)
        } else if chars_eq(&self.name, &Protocol::HSIntro.name()) {
            Ok(Protocol::HSIntro)
        } else if chars_eq(&self.name, &Protocol::HSRend.name()) {
            Ok(Protocol::HSRend)
        } else if chars_eq(&self.name, &Protocol::Link.name()) {
            Ok(Protocol::Link)
        } else if chars_eq(&self.name, &Protocol::LinkAuth.name()) {
            Ok(Protocol::LinkAuth)
        } else if chars_eq(&self.name, &Protocol::Microdesc.name()) {
            Ok(Protocol::Microdesc)
        } else if chars_eq(&self.name, &Protocol::Relay.name()) {
            Ok(Protocol::Relay)
        } else {
            Err(ProtoverError::UnknownProtocol)
        }
    }
}

// ---------------------------------------------------------------------
// The order of names
// ---------------------------------------------------------------------

/// `a` and `b` agree on their first `k` characters, and there `a` ends
/// while `b` goes on, or `a` has the smaller character.
pub open spec fn less_at(a: Seq<char>, b: Seq<char>, k: int) -> bool {
    &&& 0 <= k <= a.len()
    &&& k < b.len()
    &&& forall|j: int| 0 <= j < k ==> a[j] == b[j]
    &&& (k == a.len() || a[k] < b[k])
}

/// The order in which names are listed: character by character, a name
/// before every longer name that starts with it.
pub open spec fn name_less(a: Seq<char>, b: Seq<char>) -> bool {
    exists|k: int| less_at(a, b, k)
}

/// No name comes before itself.
pub proof fn lemma_name_less_irreflexive(a: Seq<char>)
    ensures
        !name_less(a, a),
{
    if name_less(a, a) {
        let k = choose|k: int| less_at(a, a, k);
        assert(less_at(a, a, k));
    }
}

/// The order of names is transitive.
pub proof fn lemma_name_less_transitive(a: Seq<char>, b: Seq<char>, c: Seq<char>)
    requires
        name_less(a, b),
        name_less(b, c),
    ensures
        name_less(a, c),
{
    let k1 = choose|k: int| less_at(a, b, k);
    let k2 = choose|k: int| less_at(b, c, k);
    assert(less_at(a, b, k1));
    assert(less_at(b, c, k2));
    if k1 < k2 {
        assert(b[k1] == c[k1]);
        assert(less_at(a, c, k1));
    } else if k1 == k2 {
        assert(less_at(a, c, k1));
    } else {
        assert(a[k2] == b[k2]);
        assert(less_at(a, c, k2));
    }
}

/// Of two names, at most one comes before the other.
pub proof fn lemma_name_less_asymmetric(a: Seq<char>, b: Seq<char>)
    requires
        name_less(a, b),
    ensures
        !name_less(b, a),
        a != b,
{
    lemma_name_less_irreflexive(a);
    if name_less(b, a) {
        lemma_name_less_transitive(a, b, a);
    }
}

/// How one name stands to another in the order of names.
#[derive(Clone, Copy, Debug, PartialEq, Eq, Structural)]
pub enum NameOrder {
    Before,
    Same,
    After,
}

/// Where `a` stands with respect to `b` in the order of names.
pub fn compare_names(a: &Vec<char>, b: &Vec<char>) -> (r: NameOrder)
    ensures
        r == NameOrder::Before ==> name_less(a@, b@),
        r == NameOrder::Same ==> a@ == b@,
        r == NameOrder::After ==> name_less(b@, a@),
{
    let mut i: usize = 0;
    while i < a.len() && i < b.len()
        invariant
            i <= a.len(),
            i <= b.len(),
            forall|j: int| 0 <= j < i ==> a@[j] == b@[j],
        decreases a.len() - i,
    {
        if a[i] < b[i] {
            assert(less_at(a@, b@, i as int));
            return NameOrder::Before;
        }
        if b[i] < a[i] {
            assert(less_at(b@, a@, i as int));
            return NameOrder::After;
        }
        i = i + 1;
    }
    if i < b.len() {
        assert(less_at(a@, b@, i as int));
        NameOrder::Before
    } else if i < a.len() {
        assert(less_at(b@, a@, i as int));
        NameOrder::After
    } else {
        assert(a@ =~= b@);
        NameOrder::Same
    }
}

} // verus!
