//! What releases that never advertised their protocols are taken to
//! support.
//!
//! Such a release is known by its version text alone, such as
//! `0.2.7.5` or `Tor 0.2.9.1-alpha`. The text is read as three or four
//! numbers with dots between them; whatever follows them is ignored. The
//! numbers place the release in one of a few eras, and each era has a
//! fixed entry.

use vstd::prelude::*;
use crate::listing::{entry_text, EntryModel};
use crate::protocol::{lemma_protocol_names_differ, protocol_name, protocol_of_name, Protocol};
use crate::roundtrip::{name_ok, writable};
use crate::protoset::{range_set, ProtoSet, Version};
use crate::supported::{lemma_known_name_ok, ProtoEntry};
use crate::text::{
    chars_of,
    is_digit,
    number_of,
    parse_number,
    pieces_view,
    slice_copy,
    split,
    split_chars,
    MAX_VERSION,
};

verus! {

/// The numbers of a release.
#[derive(Clone, Copy, Debug, PartialEq, Eq, Structural)]
pub struct Release {
    pub major: u32,
    pub minor: u32,
    pub micro: u32,
    pub patch: u32,
}

/// The stretch of releases that a release belongs to.
#[allow(non_camel_case_types)]
#[derive(Clone, Copy, Debug, PartialEq, Eq, Structural)]
pub enum Era {
    /// Before 0.2.4.19, or a version text that cannot be read: nothing is
    /// taken for granted.
    Unknown,
    /// From 0.2.4.19 on.
    Since0_2_4_19,
    /// From 0.2.7.5 on.
    Since0_2_7_5,
    /// From 0.2.9.1 on.
    Since0_2_9_1,
    /// From 0.2.9.3 on releases advertise their protocols themselves, and
    /// nothing is added for them.
    Advertising,
}

/// Whether `c` can stand among the numbers of a release.
pub open spec fn is_release_char(c: char) -> bool {
    is_digit(c) || c == '.'
}

/// The first `i` characters of `s` are digits and dots, and the next one,
/// if there is one, is neither.
pub open spec fn is_release_len(s: Seq<char>, i: int) -> bool {
    &&& 0 <= i <= s.len()
    &&& forall|j: int| 0 <= j < i ==> is_release_char(#[trigger] s[j])
    &&& i < s.len() ==> !is_release_char(s[i])
}

/// How many digits and dots `s` starts with.
pub open spec fn release_len(s: Seq<char>) -> int {
    choose|i: int| is_release_len(s, i)
}

/// There is only one such length.
pub proof fn lemma_release_len(s: Seq<char>, i: int)
    requires
        is_release_len(s, i),
    ensures
        release_len(s) == i,
{
    let k = release_len(s);
    assert(is_release_len(s, k));
    if k < i {
        assert(is_release_char(s[k]));
    }
    if i < k {
        assert(is_release_char(s[i]));
    }
}

/// The word that may stand before the numbers.
pub open spec fn release_prefix() -> Seq<char> {
    seq!['T', 'o', 'r', ' ']
}

/// The text without the word that may stand before the numbers.
pub open spec fn without_prefix(s: Seq<char>) -> Seq<char> {
    if s.len() >= 4 && s.take(4) == release_prefix() {
        s.skip(4)
    } else {
        s
    }
}

/// The numbers that the version text `s` starts with: three or four of
/// them, a missing fourth counting as zero.
pub open spec fn release_of(s: Seq<char>) -> Option<Release> {
    let t = without_prefix(s);
    let parts = split(t.take(release_len(t)), '.');
    if parts.len() == 3 {
        if number_of(parts[0]) is Ok && number_of(parts[1]) is Ok && number_of(parts[2]) is Ok {
            Some(
                Release {
                    major: number_of(parts[0])->Ok_0,
                    minor: number_of(parts[1])->Ok_0,
                    micro: number_of(parts[2])->Ok_0,
                    patch: 0,
                },
            )
        } else {
            None
        }
    } else if parts.len() == 4 {
        if number_of(parts[0]) is Ok && number_of(parts[1]) is Ok && number_of(parts[2]) is Ok
            && number_of(parts[3]) is Ok {
            Some(
                Release {
                    major: number_of(parts[0])->Ok_0,
                    minor: number_of(parts[1])->Ok_0,
                    micro: number_of(parts[2])->Ok_0,
                    patch: number_of(parts[3])->Ok_0,
                },
            )
        } else {
            None
        }
    } else {
        None
    }
}

/// Whether release `r` is `major.minor.micro.patch` or a later one.
pub open spec fn at_least(r: Release, major: int, minor: int, micro: int, patch: int) -> bool {
    r.major > major || (r.major == major && (r.minor > minor || (r.minor == minor && (r.micro
        > micro || (r.micro == micro && r.patch >= patch)))))
}

/// The era of a release.
pub open spec fn era_of_release(r: Release) -> Era {
    if at_least(r, 0, 2, 9, 3) {
        Era::Advertising
    } else if at_least(r, 0, 2, 9, 1) {
        Era::Since0_2_9_1
    } else if at_least(r, 0, 2, 7, 5) {
        Era::Since0_2_7_5
    } else if at_least(r, 0, 2, 4, 19) {
        Era::Since0_2_4_19
    } else {
        Era::Unknown
    }
}

/// The era that the version text `s` belongs to.
pub open spec fn era_of(s: Seq<char>) -> Era {
    match release_of(s) {
        Some(r) => era_of_release(r),
        None => Era::Unknown,
    }
}

/// The versions of `p` that the releases of an era are taken to support.
pub open spec fn era_versions(e: Era, p: Protocol) -> Set<int> {
    match e {
        Era::Since0_2_9_1 => match p {
            Protocol::Cons => range_set(1, 2),
            Protocol::Desc => range_set(1, 2),
            Protocol::DirCache => range_set(1, 1),
            Protocol::HSDir => range_set(1, 1),
            Protocol::HSIntro => range_set(3, 3),
            Protocol::HSRend => range_set(1, 2),
            Protocol::Link => range_set(1, 4),
            Protocol::LinkAuth => range_set(1, 1),
            Protocol::Microdesc => range_set(1, 2),
            Protocol::Relay => range_set(1, 2),
        },
        Era::Since0_2_7_5 => match p {
            Protocol::Cons => range_set(1, 2),
            Protocol::Desc => range_set(1, 2),
            Protocol::DirCache => range_set(1, 1),
            Protocol::HSDir => range_set(1, 1),
            Protocol::HSIntro => range_set(3, 3),
            Protocol::HSRend => range_set(1, 1),
            Protocol::Link => range_set(1, 4),
            Protocol::LinkAuth => range_set(1, 1),
            Protocol::Microdesc => range_set(1, 2),
            Protocol::Relay => range_set(1, 2),
        },
        Era::Since0_2_4_19 => match p {
            Protocol::Cons => range_set(1, 1),
            Protocol::Desc => range_set(1, 1),
            Protocol::DirCache => range_set(1, 1),
            Protocol::HSDir => range_set(1, 1),
            Protocol::HSIntro => range_set(3, 3),
            Protocol::HSRend => range_set(1, 1),
            Protocol::Link => range_set(1, 4),
            Protocol::LinkAuth => range_set(1, 1),
            Protocol::Microdesc => range_set(1, 1),
            Protocol::Relay => range_set(1, 2),
        },
        _ => Set::<int>::empty(),
    }
}

/// The entry of an era: every known protocol with its versions, or
/// nothing at all for the two eras of which nothing is assumed.
pub open spec fn era_model(e: Era) -> EntryModel {
    if e == Era::Unknown || e == Era::Advertising {
        Map::<Seq<char>, Set<int>>::empty()
    } else {
        Map::new(
            |n: Seq<char>| protocol_of_name(n) is Some,
            |n: Seq<char>| era_versions(e, protocol_of_name(n)->Some_0),
        )
    }
}

/// The entry that a release with version text `s` is taken to support.
pub open spec fn legacy_model(s: Seq<char>) -> EntryModel {
    era_model(era_of(s))
}

/// The entry of an era can be written, unless it names no protocol: every
/// protocol in it has a name that can be written and a version.
pub proof fn lemma_era_writable(e: Era)
    ensures
        writable(era_model(e)),
        e != Era::Unknown && e != Era::Advertising ==> era_model(e).dom().contains(
            protocol_name(Protocol::Cons),
        ),
{
    lemma_protocol_names_differ(Protocol::Cons, Protocol::Cons);
    assert forall|n: Seq<char>| #[trigger]
        era_model(e).dom().contains(n) implies name_ok(n) && exists|v: int|
        era_model(e)[n].contains(v) by {
        let p = protocol_of_name(n)->Some_0;
        assert(n == protocol_name(p));
        lemma_known_name_ok(p);
        let w: int = if p == Protocol::HSIntro {
            3
        } else {
            1
        };
        assert(range_set(1, 1).contains(1) && range_set(1, 2).contains(1) && range_set(
            1,
            4,
        ).contains(1) && range_set(3, 3).contains(3));
        assert(era_versions(e, p).contains(w));
        assert(era_model(e)[n].contains(w));
    }
}

/// Reads the numbers of a release.
pub fn parse_release(v: &Vec<char>) -> (r: Option<Release>)
    ensures
        r == release_of(v@),
{
    let n = v.len();
    let start: usize = if n >= 4 && v[0] == 'T' && v[1] == 'o' && v[2] == 'r' && v[3] == ' ' {
        4
    } else {
        0
    };
    let ghost t = without_prefix(v@);
    proof {
        if start == 4 {
            assert(v@.take(4) =~= release_prefix());
        } else if n >= 4 {
            assert(v@.take(4)[0] == v@[0]);
            assert(v@.take(4)[1] == v@[1]);
            assert(v@.take(4)[2] == v@[2]);
            assert(v@.take(4)[3] == v@[3]);
        }
        assert(t == v@.skip(start as int));
    }
    let mut end: usize = start;
    while end < n && ((v[end] >= '0' && v[end] <= '9') || v[end] == '.')
        invariant
            start <= end <= n,
            n == v.len(),
            t == v@.skip(start as int),
            forall|j: int| 0 <= j < end - start ==> is_release_char(#[trigger] t[j]),
        decreases n - end,
    {
        end = end + 1;
    }
    let core = slice_copy(v, start, end);
    proof {
        lemma_release_len(t, end - start);
        assert(core@ =~= t.take(end - start));
    }
    let parts = split_chars(&core, '.');
    let ghost ps = pieces_view(parts@);
    if parts.len() != 3 && parts.len() != 4 {
        return None;
    }
    assert(ps[0] == parts@[0]@ && ps[1] == parts@[1]@ && ps[2] == parts@[2]@);
    let major = match parse_number(&parts[0]) {
        Ok(x) => x,
        Err(_) => {
            return None;
        },
    };
    let minor = match parse_number(&parts[1]) {
        Ok(x) => x,
        Err(_) => {
            return None;
        },
    };
    let micro = match parse_number(&parts[2]) {
        Ok(x) => x,
        Err(_) => {
            return None;
        },
    };
    let patch = if parts.len() == 4 {
        assert(ps[3] == parts@[3]@);
        match parse_number(&parts[3]) {
            Ok(x) => x,
            Err(_) => {
                return None;
            },
        }
    } else {
        0
    };
    Some(Release { major, minor, micro, patch })
}

/// Whether release `r` is `major.minor.micro.patch` or a later one.
pub fn release_at_least(r: &Release, major: u32, minor: u32, micro: u32, patch: u32) -> (b: bool)
    ensures
        b == at_least(*r, major as int, minor as int, micro as int, patch as int),
{
    r.major > major || (r.major == major && (r.minor > minor || (r.minor == minor && (r.micro
        > micro || (r.micro == micro && r.patch >= patch)))))
}

/// The era of the release with version text `version`.
pub fn era(version: &str) -> (e: Era)
    ensures
        e == era_of(version@),
{
    let chars = chars_of(version);
    match parse_release(&chars) {
        None => Era::Unknown,
        Some(r) => {
            if release_at_least(&r, 0, 2, 9, 3) {
                Era::Advertising
            } else if release_at_least(&r, 0, 2, 9, 1) {
                Era::Since0_2_9_1
            } else if release_at_least(&r, 0, 2, 7, 5) {
                Era::Since0_2_7_5
            } else if release_at_least(&r, 0, 2, 4, 19) {
                Era::Since0_2_4_19
            } else {
                Era::Unknown
            }
        },
    }
}

/// The set of the versions from `low` to `high`.
fn span(low: Version, high: Version) -> (s: ProtoSet)
    requires
        low <= high <= MAX_VERSION,
    ensures
        s.wf(),
        s@ == range_set(low as int, high as int),
{
    let mut s = ProtoSet::new();
    s.push_range(low, high);
    assert(s@ =~= range_set(low as int, high as int));
    s
}

/// The entry of an era.
pub fn era_entry(e: Era) -> (r: ProtoEntry)
    ensures
        r.wf(),
        r@ == era_model(e),
{
    let mut r = ProtoEntry::new();
    let (two, rend): (Version, Version) = match e {
        Era::Unknown => {
            return r;
        },
        Era::Advertising => {
            return r;
        },
        Era::Since0_2_4_19 => (1, 1),
        Era::Since0_2_7_5 => (2, 1),
        Era::Since0_2_9_1 => (2, 2),
    };
    r.insert(Protocol::Cons, span(1, two));
    r.insert(Protocol::Desc, span(1, two));
    r.insert(Protocol::DirCache, span(1, 1));
    r.insert(Protocol::HSDir, span(1, 1));
    r.insert(Protocol::HSIntro, span(3, 3));
    r.insert(Protocol::HSRend, span(1, rend));
    r.insert(Protocol::Link, span(1, 4));
    r.insert(Protocol::LinkAuth, span(1, 1));
    r.insert(Protocol::Microdesc, span(1, two));
    r.insert(Protocol::Relay, span(1, 2));
    proof {
        lemma_protocol_names_differ(Protocol::Cons, Protocol::Cons);
        lemma_protocol_names_differ(Protocol::Desc, Protocol::Cons);
        lemma_protocol_names_differ(Protocol::DirCache, Protocol::Cons);
        lemma_protocol_names_differ(Protocol::HSDir, Protocol::Cons);
        lemma_protocol_names_differ(Protocol::HSIntro, Protocol::Cons);
        lemma_protocol_names_differ(Protocol::HSRend, Protocol::Cons);
        lemma_protocol_names_differ(Protocol::Link, Protocol::Cons);
        lemma_protocol_names_differ(Protocol::LinkAuth, Protocol::Cons);
        lemma_protocol_names_differ(Protocol::Microdesc, Protocol::Cons);
        lemma_protocol_names_differ(Protocol::Relay, Protocol::Cons);
        assert(r@ =~= era_model(e));
    }
    r
}

/// The entry that a release with version text `version` is taken to
/// support. A text that cannot be read, or that no era claims, gives the
/// entry that names no protocol.
pub fn compute_for_old_tor(version: &str) -> (r: ProtoEntry)
    ensures
        r.wf(),
        r@ == legacy_model(version@),
{
    era_entry(era(version))
}

/// Looking the same version text up twice gives the same entry, and with
/// it the same canonical text.
pub proof fn lemma_lookup_repeatable(s: Seq<char>, a: ProtoEntry, b: ProtoEntry)
    requires
        a@ == legacy_model(s),
        b@ == legacy_model(s),
    ensures
        a@ == b@,
        entry_text(a@) == entry_text(b@),
{
}

} // verus!
