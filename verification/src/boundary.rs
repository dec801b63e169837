//! The entry points that a caller from outside uses: texts and numbers
//! in, texts and truth values out. A fault comes back as a typed error;
//! turning it into a number is left to the caller.

use vstd::prelude::*;
use crate::entry::{all_wf, models, supports, supports_or_later, UnvalidatedProtoEntry};
use crate::errors::ProtoverError;
use crate::legacy::{compute_for_old_tor, era_of, legacy_model, lemma_era_writable};
use crate::listing::{entry_text, has_listing, lemma_listing_at, EntryModel};
use crate::meaning::lemma_parsed_name_chars;
use crate::parse::parse_text;
use crate::protocol::{protocol_name, Protocol, UnknownProtocol};
use crate::roundtrip::{
    is_grammar_char,
    lemma_listing_written_reads_back,
    lemma_parsed_is_printable,
    lemma_text_chars,
    name_ok,
    writable,
};
use crate::supported::{
    fully_supported,
    is_supported_here,
    lemma_supported_writable,
    locally_supported,
    supported_model,
    supported_versions,
    unsupported_model,
    ProtoEntry,
};
use crate::vote::{lemma_count_positive, vote_model, voted, ProtoverVote};

verus! {

/// The protocol that the number `n` stands for. The numbers are fixed:
/// they are never given to another protocol.
pub open spec fn protocol_of_number(n: u32) -> Result<Protocol, ProtoverError> {
    if n == 0 {
        Ok(Protocol::Link)
    } else if n == 1 {
        Ok(Protocol::LinkAuth)
    } else if n == 2 {
        Ok(Protocol::Relay)
    } else if n == 3 {
        Ok(Protocol::DirCache)
    } else if n == 4 {
        Ok(Protocol::HSDir)
    } else if n == 5 {
        Ok(Protocol::HSIntro)
    } else if n == 6 {
        Ok(Protocol::HSRend)
    } else if n == 7 {
        Ok(Protocol::Desc)
    } else if n == 8 {
        Ok(Protocol::Microdesc)
    } else if n == 9 {
        Ok(Protocol::Cons)
    } else {
        Err(ProtoverError::UnknownProtocol)
    }
}

/// The number that stands for the protocol `p`.
pub open spec fn number_of_protocol(p: Protocol) -> u32 {
    match p {
        Protocol::Link => 0,
        Protocol::LinkAuth => 1,
        Protocol::Relay => 2,
        Protocol::DirCache => 3,
        Protocol::HSDir => 4,
        Protocol::HSIntro => 5,
        Protocol::HSRend => 6,
        Protocol::Desc => 7,
        Protocol::Microdesc => 8,
        Protocol::Cons => 9,
    }
}

/// Numbers and known protocols correspond one to one.
pub proof fn lemma_numbers_one_to_one(p: Protocol, n: u32)
    ensures
        protocol_of_number(number_of_protocol(p)) == Ok::<Protocol, ProtoverError>(p),
        protocol_of_number(n) == Ok::<Protocol, ProtoverError>(p) ==> n == number_of_protocol(p),
        protocol_of_number(n) is Err <==> n >= 10,
{
}

/// The protocol that the number `c_proto` stands for.
pub fn translate_to_rust(c_proto: u32) -> (r: Result<Protocol, ProtoverError>)
    ensures
        r == protocol_of_number(c_proto),
{
    match c_proto {
        0 => Ok(Protocol::Link),
        1 => Ok(Protocol::LinkAuth),
        2 => Ok(Protocol::Relay),
        3 => Ok(Protocol::DirCache),
        4 => Ok(Protocol::HSDir),
        5 => Ok(Protocol::HSIntro),
        6 => Ok(Protocol::HSRend),
        7 => Ok(Protocol::Desc),
        8 => Ok(Protocol::Microdesc),
        9 => Ok(Protocol::Cons),
        _ => Err(ProtoverError::UnknownProtocol),
    }
}

/// The answer to a question as a single integer, for a caller that cannot
/// take a typed result: 1 for yes, 0 for no and for every fault. Which
/// fault it was is lost; that is the price of the integer.
pub open spec fn flag_of(r: Result<bool, ProtoverError>) -> i32 {
    if r == Ok::<bool, ProtoverError>(true) {
        1
    } else {
        0
    }
}

/// The answer to a question as a single integer: see [`flag_of`].
pub fn collapse(r: Result<bool, ProtoverError>) -> (f: i32)
    ensures
        f == flag_of(r),
{
    match r {
        Ok(true) => 1,
        _ => 0,
    }
}

/// The outcome of [`protover_all_supported`] for a caller that cannot
/// take a typed result. The integer is 1 only where all that the list asks
/// for is supported. Where something is missing it is 0, and the text of
/// what is missing comes with it. Where the list cannot be read it is 0
/// as well, and no text comes with it: a list that is no list is never
/// reported as supported, and which fault it had is lost.
pub fn collapse_all_supported(r: Result<Option<String>, ProtoverError>) -> (out: (
    i32,
    Option<String>,
))
    ensures
        r matches Ok(Some(t)) ==> out == (0i32, Some(t)),
        r matches Ok(None) ==> out == (1i32, None::<String>),
        r is Err ==> out == (0i32, None::<String>),
{
    match r {
        Ok(Some(t)) => (0, Some(t)),
        Ok(None) => (1, None),
        Err(_) => (0, None),
    }
}

/// What the list `relay_version` asks for and this implementation does
/// not support, as canonical text; `None` if it supports all of it. The
/// text is read back as exactly what is missing, and apart from digits
/// and the signs of the grammar it holds only characters of the list.
pub fn protover_all_supported(relay_version: &str) -> (r: Result<Option<String>, ProtoverError>)
    ensures
        match parse_text(relay_version@) {
            Err(e) => r == Err::<Option<String>, ProtoverError>(e),
            Ok(m) => r is Ok && if fully_supported(m) {
                r->Ok_0 is None
            } else {
                &&& r->Ok_0 is Some
                &&& r->Ok_0->Some_0@ == entry_text(unsupported_model(m))
                &&& has_listing(unsupported_model(m))
                &&& parse_text(r->Ok_0->Some_0@) == Ok::<EntryModel, ProtoverError>(
                    unsupported_model(m),
                )
                &&& forall|c: char|
                    r->Ok_0->Some_0@.contains(c) ==> is_grammar_char(c)
                        || relay_version@.contains(c)
            },
        },
{
    let entry = match UnvalidatedProtoEntry::from_str(relay_version) {
        Ok(e) => e,
        Err(e) => {
            return Err(e);
        },
    };
    match entry.all_supported() {
        None => Ok(None),
        Some(u) => {
            let text = u.to_string();
            proof {
                let m = entry@;
                let l = u.listing();
                lemma_parsed_is_printable(relay_version@);
                assert forall|n: Seq<char>| #[trigger]
                    u@.dom().contains(n) implies name_ok(n) && exists|v: int|
                    u@[n].contains(v) by {
                    let v = choose|v: int|
                        m[n].contains(v) && !locally_supported(n).contains(v);
                    assert(u@[n].contains(v));
                }
                let (n0, v0) = choose|n: Seq<char>, v: int|
                    supports(m, n, v) && !locally_supported(n).contains(v);
                assert(m[n0].contains(v0) && !locally_supported(n0).contains(v0));
                assert(u@.dom().contains(n0));
                lemma_listing_written_reads_back(l);
                assert(l.len() > 0);
                assert forall|c: char| text@.contains(c) implies is_grammar_char(c)
                    || relay_version@.contains(c) by {
                    lemma_text_chars(l, c);
                    if !is_grammar_char(c) {
                        let k = choose|k: int| 0 <= k < l.len() && (#[trigger] l[k]).0.contains(c);
                        lemma_listing_at(l, k);
                        assert(u@.dom().contains(l[k].0));
                        lemma_parsed_name_chars(relay_version@, l[k].0, c);
                    }
                }
            }
            Ok(Some(text))
        },
    }
}

/// Whether the list `c_protocol_list` gives version `version` for the
/// protocol with number `c_protocol`. A list that cannot be read is
/// reported before a number that stands for no protocol.
pub fn protocol_list_supports_protocol(c_protocol_list: &str, c_protocol: u32, version: u32) -> (r:
    Result<bool, ProtoverError>)
    ensures
        match parse_text(c_protocol_list@) {
            Err(e) => r == Err::<bool, ProtoverError>(e),
            Ok(m) => match protocol_of_number(c_protocol) {
                Err(e) => r == Err::<bool, ProtoverError>(e),
                Ok(p) => r == Ok::<bool, ProtoverError>(
                    supports(m, protocol_name(p), version as int),
                ),
            },
        },
{
    let entry = match UnvalidatedProtoEntry::from_str(c_protocol_list) {
        Ok(e) => e,
        Err(e) => {
            return Err(e);
        },
    };
    let protocol = match translate_to_rust(c_protocol) {
        Ok(p) => UnknownProtocol::from_protocol(p),
        Err(e) => {
            return Err(e);
        },
    };
    Ok(entry.supports_protocol(&protocol, &version))
}

/// Whether the list `c_protocol_list` gives version `version` or a later
/// one for the protocol with number `c_protocol`. A number that stands for
/// no protocol is reported before a list that cannot be read.
pub fn protocol_list_supports_protocol_or_later(
    c_protocol_list: &str,
    c_protocol: u32,
    version: u32,
) -> (r: Result<bool, ProtoverError>)
    ensures
        match protocol_of_number(c_protocol) {
            Err(e) => r == Err::<bool, ProtoverError>(e),
            Ok(p) => match parse_text(c_protocol_list@) {
                Err(e) => r == Err::<bool, ProtoverError>(e),
                Ok(m) => r == Ok::<bool, ProtoverError>(
                    supports_or_later(m, protocol_name(p), version as int),
                ),
            },
        },
{
    let protocol = match translate_to_rust(c_protocol) {
        Ok(p) => UnknownProtocol::from_protocol(p),
        Err(e) => {
            return Err(e);
        },
    };
    let entry = match UnvalidatedProtoEntry::from_str(c_protocol_list) {
        Ok(e) => e,
        Err(e) => {
            return Err(e);
        },
    };
    Ok(entry.supports_protocol_or_later(&protocol, &version))
}

/// What this implementation supports, as canonical text. The text holds
/// no character that would end it early where texts end at a zero, and it
/// is read back as exactly what is supported.
pub fn protover_get_supported_protocols() -> (s: String)
    ensures
        s@ == entry_text(supported_model()),
        !s@.contains('\0'),
        has_listing(supported_model()),
        parse_text(s@) == Ok::<EntryModel, ProtoverError>(supported_model()),
{
    let table = ProtoEntry::supported();
    let s = table.to_string();
    proof {
        lemma_supported_writable();
        lemma_listing_written_reads_back(table.listing());
        assert(table@.dom().contains(protocol_name(Protocol::Cons)));
        assert(table.listing().len() > 0);
    }
    s
}

/// The entries that can be read from the texts, in the order of the
/// texts; a text that cannot be read is passed over.
pub open spec fn readable(texts: Seq<Seq<char>>) -> Seq<EntryModel>
    decreases texts.len(),
{
    if texts.len() == 0 {
        Seq::<EntryModel>::empty()
    } else {
        match parse_text(texts.last()) {
            Ok(m) => readable(texts.drop_last()).push(m),
            Err(_) => readable(texts.drop_last()),
        }
    }
}

/// The texts that a sequence of strings holds.
pub open spec fn texts_of(list: Seq<String>) -> Seq<Seq<char>> {
    Seq::new(list.len(), |i: int| list[i]@)
}

/// The outcome, as canonical text, of the vote over the lists that can be
/// read from `list`. A threshold below zero is one that no count reaches:
/// the outcome is then empty.
pub fn protover_compute_vote(list: &[String], threshold: i32) -> (s: String)
    ensures
        threshold < 0 ==> s@ == Seq::<char>::empty(),
        threshold >= 0 ==> s@ == entry_text(
            vote_model(readable(texts_of(list@)), threshold as int),
        ),
        threshold >= 0 ==> has_listing(vote_model(readable(texts_of(list@)), threshold as int)),
        s@.len() > 0 ==> parse_text(s@) == Ok::<EntryModel, ProtoverError>(
            vote_model(readable(texts_of(list@)), threshold as int),
        ),
{
    if threshold < 0 {
        return String::new();
    }
    let hold: usize = threshold as usize;
    let ghost texts = texts_of(list@);
    let mut proto_entries: Vec<UnvalidatedProtoEntry> = Vec::new();
    let mut i: usize = 0;
    assert(texts.take(0) =~= Seq::<Seq<char>>::empty());
    assert(models(proto_entries@) =~= Seq::<EntryModel>::empty());
    while i < list.len()
        invariant
            i <= list.len(),
            texts == texts_of(list@),
            all_wf(proto_entries@),
            models(proto_entries@) == readable(texts.take(i as int)),
        decreases list.len() - i,
    {
        proof {
            assert(texts.take(i + 1).drop_last() =~= texts.take(i as int));
            assert(texts.take(i + 1).last() == list@[i as int]@);
        }
        let ghost before = proto_entries@;
        match UnvalidatedProtoEntry::from_str(list[i].as_str()) {
            Ok(entry) => {
                proto_entries.push(entry);
                assert(models(proto_entries@) =~= models(before).push(entry@));
            },
            Err(_) => {},
        }
        i = i + 1;
    }
    assert(texts.take(list.len() as int) =~= texts);
    let vote = ProtoverVote::compute(proto_entries.as_slice(), &hold);
    proof {
        lemma_vote_writable(texts, threshold as int);
        lemma_listing_written_reads_back(vote.listing());
    }
    vote.to_string()
}

/// The names of the entries that can be read from the texts can be
/// written.
pub proof fn lemma_readable_names(texts: Seq<Seq<char>>, k: int, n: Seq<char>)
    requires
        0 <= k < readable(texts).len(),
        readable(texts)[k].dom().contains(n),
    ensures
        name_ok(n),
    decreases texts.len(),
{
    if texts.len() > 0 {
        let front = readable(texts.drop_last());
        if parse_text(texts.last()) is Ok && k == front.len() {
            lemma_parsed_is_printable(texts.last());
        } else {
            assert(readable(texts)[k] == front[k]);
            lemma_readable_names(texts.drop_last(), k, n);
        }
    }
}

/// The outcome of a vote over entries that were read from texts can be
/// written, unless nothing wins: every protocol in it has a name that can
/// be written and a version.
pub proof fn lemma_vote_writable(texts: Seq<Seq<char>>, threshold: int)
    ensures
        writable(vote_model(readable(texts), threshold)),
{
    let ms = readable(texts);
    let goal = vote_model(ms, threshold);
    assert forall|n: Seq<char>| #[trigger] goal.dom().contains(n) implies name_ok(n)
        && exists|v: int| goal[n].contains(v) by {
        let v = choose|v: int| voted(ms, threshold, n, v);
        assert(goal[n].contains(v));
        lemma_count_positive(ms, n, v);
        let k = choose|k: int| 0 <= k < ms.len() && supports(#[trigger] ms[k], n, v);
        lemma_readable_names(texts, k, n);
    }
}

/// Whether this implementation supports version `version` of the
/// protocol with number `c_protocol`.
pub fn protover_is_supported_here(c_protocol: u32, version: u32) -> (r: Result<bool, ProtoverError>)
    ensures
        match protocol_of_number(c_protocol) {
            Err(e) => r == Err::<bool, ProtoverError>(e),
            Ok(p) => r == Ok::<bool, ProtoverError>(supported_versions(p).contains(version as int)),
        },
{
    match translate_to_rust(c_protocol) {
        Ok(p) => Ok(is_supported_here(&p, &version)),
        Err(e) => Err(e),
    }
}

/// What a release with version text `version` is taken to support, as
/// canonical text: empty for a release of which nothing is assumed.
pub fn protover_compute_for_old_tor(version: &str) -> (s: String)
    ensures
        s@ == entry_text(legacy_model(version@)),
        !s@.contains('\0'),
        has_listing(legacy_model(version@)),
        s@.len() > 0 ==> parse_text(s@) == Ok::<EntryModel, ProtoverError>(
            legacy_model(version@),
        ),
{
    let entry = compute_for_old_tor(version);
    proof {
        lemma_era_writable(era_of(version@));
        lemma_listing_written_reads_back(entry.listing());
    }
    entry.to_string()
}

} // verus!
