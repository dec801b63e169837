//! Reading an entry from text.
//!
//! A text is a list of pieces with commas between them. A piece that holds
//! an equals sign opens a protocol: its name stands before the sign, its
//! first range after it. A piece without one is a further range of the
//! protocol that was opened last. A range is a number, or two numbers
//! with a hyphen between them.

use vstd::prelude::*;
use crate::entry::UnvalidatedProtoEntry;
use crate::errors::ProtoverError;
use crate::listing::EntryModel;
use crate::protocol::UnknownProtocol;
use crate::protoset::{range_set, ProtoSet, VersionRange};
use crate::text::{
    chars_of,
    find_char,
    first_index,
    lemma_number_of,
    number_of,
    parse_number,
    pieces_view,
    slice_copy,
    split,
    split_chars,
};

verus! {

/// The longest name that a text may give a protocol.
pub const MAX_PROTOCOL_NAME_LENGTH: usize = 100;

/// The range that `s` writes. A text that is not made of digits around at
/// most one hyphen is unparseable; failing that, a number above the limit
/// exceeds it; failing that, the bounds must be in order.
pub open spec fn range_of(s: Seq<char>) -> Result<VersionRange, ProtoverError> {
    let d = first_index(s, '-');
    if d == s.len() {
        match number_of(s) {
            Ok(n) => Ok(VersionRange { low: n, high: n }),
            Err(e) => Err(e),
        }
    } else {
        let low = number_of(s.take(d));
        let high = number_of(s.skip(d + 1));
        if low == Err::<u32, ProtoverError>(ProtoverError::Unparseable) || high == Err::<
            u32,
            ProtoverError,
        >(ProtoverError::Unparseable) {
            Err(ProtoverError::Unparseable)
        } else if low is Err || high is Err {
            Err(ProtoverError::ExceedsMax)
        } else if low->Ok_0 > high->Ok_0 {
            Err(ProtoverError::LowGreaterThanHigh)
        } else {
            Ok(VersionRange { low: low->Ok_0, high: high->Ok_0 })
        }
    }
}

/// What has been read so far: the entry, and the protocol that further
/// ranges belong to.
pub struct ParseState {
    pub entries: EntryModel,
    pub current: Option<Seq<char>>,
}

/// Whether `r` shares a version with `s`.
pub open spec fn meets(s: Set<int>, r: VersionRange) -> bool {
    exists|v: int| r.low <= v <= r.high && s.contains(v)
}

/// Reading one piece. The checks are made in this order: the grammar, the
/// limit on versions, the order of the bounds, versions given twice, a
/// protocol opened twice.
pub open spec fn parse_step(st: ParseState, piece: Seq<char>) -> Result<ParseState, ProtoverError> {
    let q = first_index(piece, '=');
    if q < piece.len() {
        let name = piece.take(q);
        if name.len() == 0 || name.len() > MAX_PROTOCOL_NAME_LENGTH {
            Err(ProtoverError::Unparseable)
        } else {
            match range_of(piece.skip(q + 1)) {
                Err(e) => Err(e),
                Ok(r) => if st.entries.dom().contains(name) {
                    if meets(st.entries[name], r) {
                        Err(ProtoverError::Overlap)
                    } else {
                        Err(ProtoverError::Duplicate)
                    }
                } else {
                    Ok(
                        ParseState {
                            entries: st.entries.insert(name, range_set(r.low as int, r.high as int)),
                            current: Some(name),
                        },
                    )
                },
            }
        }
    } else {
        match st.current {
            None => Err(ProtoverError::Unparseable),
            Some(name) => match range_of(piece) {
                Err(e) => Err(e),
                Ok(r) => if meets(st.entries[name], r) {
                    Err(ProtoverError::Overlap)
                } else {
                    Ok(
                        ParseState {
                            entries: st.entries.insert(
                                name,
                                st.entries[name].union(range_set(r.low as int, r.high as int)),
                            ),
                            current: Some(name),
                        },
                    )
                },
            },
        }
    }
}

/// Reading the pieces from left to right; the first piece that is refused
/// decides the error.
pub open spec fn parse_pieces(pieces: Seq<Seq<char>>) -> Result<ParseState, ProtoverError>
    decreases pieces.len(),
{
    if pieces.len() == 0 {
        Ok(ParseState { entries: Map::<Seq<char>, Set<int>>::empty(), current: None })
    } else {
        match parse_pieces(pieces.drop_last()) {
            Err(e) => Err(e),
            Ok(st) => parse_step(st, pieces.last()),
        }
    }
}

/// The entry that the text `s` writes, or why it writes none.
pub open spec fn parse_text(s: Seq<char>) -> Result<EntryModel, ProtoverError> {
    match parse_pieces(split(s, ',')) {
        Ok(st) => Ok(st.entries),
        Err(e) => Err(e),
    }
}

/// Once the first pieces are refused, so is the whole.
pub proof fn lemma_parse_pieces_fails(pieces: Seq<Seq<char>>, k: int)
    requires
        0 <= k <= pieces.len(),
        parse_pieces(pieces.take(k)) is Err,
    ensures
        parse_pieces(pieces) == parse_pieces(pieces.take(k)),
    decreases pieces.len(),
{
    if k == pieces.len() {
        assert(pieces.take(k) =~= pieces);
    } else {
        assert(pieces.drop_last().take(k) =~= pieces.take(k));
        lemma_parse_pieces_fails(pieces.drop_last(), k);
    }
}

/// A range that was read is in order and within the limit.
pub proof fn lemma_range_of_wf(s: Seq<char>)
    ensures
        range_of(s) matches Ok(r) ==> r.wf(),
{
    let d = first_index(s, '-');
    lemma_number_of(s);
    lemma_number_of(s.take(d));
    lemma_number_of(s.skip(d + 1));
}

/// Reads one range.
pub fn parse_range(v: &Vec<char>) -> (r: Result<VersionRange, ProtoverError>)
    ensures
        r == range_of(v@),
{
    let d = find_char(v, '-');
    if d == v.len() {
        match parse_number(v) {
            Ok(n) => Ok(VersionRange { low: n, high: n }),
            Err(e) => Err(e),
        }
    } else {
        let front = slice_copy(v, 0, d);
        let back = slice_copy(v, d + 1, v.len());
        assert(front@ =~= v@.take(d as int));
        assert(back@ =~= v@.skip(d + 1));
        let low = parse_number(&front);
        let high = parse_number(&back);
        match (low, high) {
            (Err(ProtoverError::Unparseable), _) => Err(ProtoverError::Unparseable),
            (_, Err(ProtoverError::Unparseable)) => Err(ProtoverError::Unparseable),
            (Err(_), _) => Err(ProtoverError::ExceedsMax),
            (_, Err(_)) => Err(ProtoverError::ExceedsMax),
            (Ok(a), Ok(b)) => {
                if a > b {
                    Err(ProtoverError::LowGreaterThanHigh)
                } else {
                    Ok(VersionRange { low: a, high: b })
                }
            },
        }
    }
}

impl UnvalidatedProtoEntry {
    /// Reads an entry from its text. Nothing is returned of a text that is
    /// refused, whatever was read before the fault.
    pub fn from_str(s: &str) -> (r: Result<UnvalidatedProtoEntry, ProtoverError>)
        ensures
            match parse_text(s@) {
                Ok(m) => r is Ok && r->Ok_0.wf() && r->Ok_0@ == m,
                Err(e) => r is Err && r->Err_0 == e,
            },
    {
        let chars = chars_of(s);
        let pieces = split_chars(&chars, ',');
        let ghost all = pieces_view(pieces@);
        let mut done = UnvalidatedProtoEntry::new();
        let mut name: Vec<char> = Vec::new();
        let mut set = ProtoSet::new();
        let mut open: bool = false;
        let mut i: usize = 0;
        assert(all.take(0) =~= Seq::<Seq<char>>::empty());
        while i < pieces.len()
            invariant
                i <= pieces.len(),
                all == pieces_view(pieces@),
                all == split(s@, ','),
                done.wf(),
                set.wf(),
                parse_pieces(all.take(i as int)) is Ok,
                open ==> parse_pieces(all.take(i as int))->Ok_0.current == Some(name@)
                    && !done@.dom().contains(name@) && parse_pieces(
                    all.take(i as int),
                )->Ok_0.entries == done@.insert(name@, set@),
                !open ==> parse_pieces(all.take(i as int))->Ok_0.current is None && parse_pieces(
                    all.take(i as int),
                )->Ok_0.entries == done@,
            decreases pieces.len() - i,
        {
            let piece = &pieces[i];
            let ghost st = parse_pieces(all.take(i as int))->Ok_0;
            proof {
                assert(all.take(i + 1).drop_last() =~= all.take(i as int));
                assert(all.take(i + 1).last() == piece@);
                assert(parse_pieces(all.take(i + 1)) == parse_step(st, piece@));
                if parse_step(st, piece@) is Err {
                    lemma_parse_pieces_fails(all, i + 1);
                }
                lemma_range_of_wf(piece@);
            }
            let q = find_char(piece, '=');
            if q < piece.len() {
                let head = slice_copy(piece, 0, q);
                let tail = slice_copy(piece, q + 1, piece.len());
                proof {
                    assert(head@ =~= piece@.take(q as int));
                    assert(tail@ =~= piece@.skip(q + 1));
                    lemma_range_of_wf(tail@);
                }
                if head.len() == 0 || head.len() > MAX_PROTOCOL_NAME_LENGTH {
                    return Err(ProtoverError::Unparseable);
                }
                let r = match parse_range(&tail) {
                    Ok(r) => r,
                    Err(e) => {
                        return Err(e);
                    },
                };
                if open {
                    done.insert(UnknownProtocol::from_chars(name), set);
                }
                assert(done@ == st.entries);
                let proto = UnknownProtocol::from_chars(head);
                match done.get(&proto) {
                    Some(had) => {
                        if had.overlaps(r.low, r.high) {
                            return Err(ProtoverError::Overlap);
                        } else {
                            return Err(ProtoverError::Duplicate);
                        }
                    },
                    None => {},
                }
                name = proto.into_chars();
                set = ProtoSet::new();
                set.push_range(r.low, r.high);
                open = true;
                assert(set@ =~= range_set(r.low as int, r.high as int));
            } else {
                if !open {
                    return Err(ProtoverError::Unparseable);
                }
                let r = match parse_range(piece) {
                    Ok(r) => r,
                    Err(e) => {
                        return Err(e);
                    },
                };
                assert(st.entries[name@] == set@);
                let ghost before = set@;
                match set.insert_range(r.low, r.high) {
                    Ok(()) => {},
                    Err(e) => {
                        return Err(e);
                    },
                }
                assert(done@.insert(name@, before).insert(name@, set@) =~= done@.insert(
                    name@,
                    set@,
                ));
            }
            i = i + 1;
        }
        assert(all.take(pieces.len() as int) =~= all);
        if open {
            done.insert(UnknownProtocol::from_chars(name), set);
        }
        Ok(done)
    }
}

} // verus!
