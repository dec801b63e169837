//! What a text means: the entry that is read from it gives a version for
//! a protocol exactly if one of the ranges written for that protocol
//! covers the version. A text that is read without fault writes no version
//! twice for a protocol and opens no protocol twice.

use vstd::prelude::*;
use crate::entry::supports;
use crate::errors::ProtoverError;
use crate::parse::{
    lemma_parse_pieces_fails,
    lemma_range_of_wf,
    parse_pieces,
    parse_step,
    parse_text,
    range_of,
    ParseState,
};
use crate::protoset::range_set;
use crate::roundtrip::lemma_parsed_is_printable;
use crate::text::{first_index, lemma_first_index_exists, lemma_split_chars, split};

verus! {

/// The protocol that piece `k` belongs to: the one that it opens, or else
/// the one that the piece before it belongs to.
pub open spec fn owner(pieces: Seq<Seq<char>>, k: int) -> Option<Seq<char>>
    decreases k,
{
    if k < 0 || k >= pieces.len() {
        None
    } else if first_index(pieces[k], '=') < pieces[k].len() {
        Some(pieces[k].take(first_index(pieces[k], '=')))
    } else if k == 0 {
        None
    } else {
        owner(pieces, k - 1)
    }
}

/// The part of a piece that writes a range: what follows the equals sign,
/// or all of the piece if there is no such sign.
pub open spec fn range_part(piece: Seq<char>) -> Seq<char> {
    if first_index(piece, '=') < piece.len() {
        piece.skip(first_index(piece, '=') + 1)
    } else {
        piece
    }
}

/// Whether piece `k` writes, for the protocol named `n`, a range that
/// covers `v`.
pub open spec fn piece_gives(pieces: Seq<Seq<char>>, k: int, n: Seq<char>, v: int) -> bool {
    &&& 0 <= k < pieces.len()
    &&& owner(pieces, k) == Some(n)
    &&& range_of(range_part(pieces[k])) is Ok
    &&& range_of(range_part(pieces[k]))->Ok_0.covers(v)
}

/// Whether some piece writes, for the protocol named `n`, a range that
/// covers `v`.
pub open spec fn text_gives(pieces: Seq<Seq<char>>, n: Seq<char>, v: int) -> bool {
    exists|k: int| piece_gives(pieces, k, n, v)
}

/// Whom a piece belongs to depends on the pieces up to it alone.
pub proof fn lemma_owner_prefix(pieces: Seq<Seq<char>>, m: int, k: int)
    requires
        0 <= k < m <= pieces.len(),
    ensures
        owner(pieces.take(m), k) == owner(pieces, k),
    decreases k,
{
    assert(pieces.take(m)[k] == pieces[k]);
    if k > 0 {
        lemma_owner_prefix(pieces, m, k - 1);
    }
}

/// What a piece gives depends on the pieces up to it alone.
pub proof fn lemma_gives_prefix(pieces: Seq<Seq<char>>, m: int, k: int, n: Seq<char>, v: int)
    requires
        0 <= k < m <= pieces.len(),
    ensures
        piece_gives(pieces.take(m), k, n, v) == piece_gives(pieces, k, n, v),
{
    lemma_owner_prefix(pieces, m, k);
    assert(pieces.take(m)[k] == pieces[k]);
}

/// After pieces that were read without fault, the entry gives exactly
/// what the pieces give, and further ranges go to the protocol that the
/// last piece belongs to, which the entry names.
pub proof fn lemma_pieces_meaning(pieces: Seq<Seq<char>>, n: Seq<char>, v: int)
    requires
        parse_pieces(pieces) is Ok,
    ensures
        supports(parse_pieces(pieces)->Ok_0.entries, n, v) == text_gives(pieces, n, v),
        parse_pieces(pieces)->Ok_0.current == owner(pieces, pieces.len() - 1),
        parse_pieces(pieces)->Ok_0.current matches Some(c) ==> parse_pieces(
            pieces,
        )->Ok_0.entries.dom().contains(c),
    decreases pieces.len(),
{
    let last = pieces.len() - 1;
    if pieces.len() == 0 {
        if text_gives(pieces, n, v) {
            let k = choose|k: int| piece_gives(pieces, k, n, v);
            assert(piece_gives(pieces, k, n, v));
        }
    } else {
        let front = pieces.drop_last();
        let piece = pieces.last();
        assert(front =~= pieces.take(last));
        assert(piece == pieces[last]);
        let st = parse_pieces(front)->Ok_0;
        let next = parse_pieces(pieces)->Ok_0;
        assert(parse_step(st, piece) == Ok::<ParseState, ProtoverError>(next));
        lemma_pieces_meaning(front, n, v);
        if last > 0 {
            lemma_owner_prefix(pieces, last, last - 1);
        }
        let q = first_index(piece, '=');
        let r = range_of(range_part(piece))->Ok_0;
        assert(range_set(r.low as int, r.high as int).contains(v) == r.covers(v));
        let name = owner(pieces, last)->Some_0;
        assert(owner(pieces, last) == Some(name));
        if q < piece.len() {
            assert(!st.entries.dom().contains(name));
        } else {
            assert(st.current == Some(name));
            assert(st.entries.dom().contains(name));
        }
        assert(supports(next.entries, n, v) == (supports(st.entries, n, v) || (n == name
            && r.covers(v))));
        assert(piece_gives(pieces, last, n, v) == (n == name && r.covers(v)));
        if text_gives(front, n, v) {
            let k = choose|k: int| piece_gives(front, k, n, v);
            lemma_gives_prefix(pieces, last, k, n, v);
            assert(piece_gives(pieces, k, n, v));
        }
        if text_gives(pieces, n, v) {
            let k = choose|k: int| piece_gives(pieces, k, n, v);
            if k < last {
                lemma_gives_prefix(pieces, last, k, n, v);
                assert(piece_gives(front, k, n, v));
            }
        }
    }
}

/// The entry that is read from a text gives a version for a protocol
/// exactly if one of the ranges that the text writes for that protocol
/// covers the version.
pub proof fn lemma_text_meaning(s: Seq<char>, n: Seq<char>, v: int)
    requires
        parse_text(s) is Ok,
    ensures
        supports(parse_text(s)->Ok_0, n, v) == text_gives(split(s, ','), n, v),
{
    lemma_pieces_meaning(split(s, ','), n, v);
}

/// Whether piece `k` opens the protocol named `n`.
pub open spec fn piece_opens(pieces: Seq<Seq<char>>, k: int, n: Seq<char>) -> bool {
    &&& 0 <= k < pieces.len()
    &&& first_index(pieces[k], '=') < pieces[k].len()
    &&& pieces[k].take(first_index(pieces[k], '=')) == n
}

/// What was read without fault up to some piece.
proof fn lemma_read_before(pieces: Seq<Seq<char>>, k: int)
    requires
        parse_pieces(pieces) is Ok,
        0 <= k < pieces.len(),
    ensures
        parse_pieces(pieces.take(k)) is Ok,
        parse_step(parse_pieces(pieces.take(k))->Ok_0, pieces[k]) is Ok,
{
    if parse_pieces(pieces.take(k)) is Err {
        lemma_parse_pieces_fails(pieces, k);
    }
    if parse_pieces(pieces.take(k + 1)) is Err {
        lemma_parse_pieces_fails(pieces, k + 1);
    }
    assert(pieces.take(k + 1).drop_last() =~= pieces.take(k));
    assert(pieces.take(k + 1).last() == pieces[k]);
}

/// Overlap is refused: in a text that is read without fault no two pieces
/// give the same version for the same protocol.
pub proof fn lemma_no_version_twice(pieces: Seq<Seq<char>>, i: int, j: int, n: Seq<char>, v: int)
    requires
        parse_pieces(pieces) is Ok,
        i < j,
        piece_gives(pieces, i, n, v),
    ensures
        !piece_gives(pieces, j, n, v),
{
    if piece_gives(pieces, j, n, v) {
        let front = pieces.take(j);
        lemma_read_before(pieces, j);
        let st = parse_pieces(front)->Ok_0;
        lemma_gives_prefix(pieces, j, i, n, v);
        assert(text_gives(front, n, v));
        lemma_pieces_meaning(front, n, v);
        assert(supports(st.entries, n, v));
        lemma_owner_prefix(pieces, j, j - 1);
        let r = range_of(range_part(pieces[j]))->Ok_0;
        assert(r.low <= v <= r.high && st.entries[n].contains(v));
    }
}

/// A protocol opened twice is refused: in a text that is read without
/// fault no two pieces open the same protocol.
pub proof fn lemma_no_protocol_twice(pieces: Seq<Seq<char>>, i: int, j: int, n: Seq<char>)
    requires
        parse_pieces(pieces) is Ok,
        i < j,
        piece_opens(pieces, i, n),
    ensures
        !piece_opens(pieces, j, n),
{
    if piece_opens(pieces, j, n) {
        lemma_read_before(pieces, i);
        lemma_read_before(pieces, j);
        let front = pieces.take(j);
        let st = parse_pieces(front)->Ok_0;
        let r = range_of(range_part(pieces[i]))->Ok_0;
        lemma_range_of_wf(range_part(pieces[i]));
        let v = r.low as int;
        assert(piece_gives(pieces, i, n, v));
        lemma_gives_prefix(pieces, j, i, n, v);
        assert(text_gives(front, n, v));
        lemma_pieces_meaning(front, n, v);
        assert(st.entries.dom().contains(n));
    }
}

/// The protocol that a piece belongs to was opened by that piece or by
/// one before it.
pub proof fn lemma_owner_opens(pieces: Seq<Seq<char>>, k: int, n: Seq<char>)
    requires
        owner(pieces, k) == Some(n),
    ensures
        exists|j: int| 0 <= j <= k && piece_opens(pieces, j, n),
    decreases k,
{
    if first_index(pieces[k], '=') < pieces[k].len() {
        assert(piece_opens(pieces, k, n));
    } else {
        lemma_owner_opens(pieces, k - 1, n);
        let j = choose|j: int| 0 <= j <= k - 1 && piece_opens(pieces, j, n);
        assert(piece_opens(pieces, j, n));
    }
}

/// The names of the entry that is read from a text are written in the
/// text: every character of such a name is a character of the text.
pub proof fn lemma_parsed_name_chars(s: Seq<char>, n: Seq<char>, c: char)
    requires
        parse_text(s) is Ok,
        parse_text(s)->Ok_0.dom().contains(n),
        n.contains(c),
    ensures
        s.contains(c),
{
    let m = parse_text(s)->Ok_0;
    let pieces = split(s, ',');
    lemma_parsed_is_printable(s);
    let v = choose|v: int| m[n].contains(v);
    assert(supports(m, n, v));
    lemma_text_meaning(s, n, v);
    let k = choose|k: int| piece_gives(pieces, k, n, v);
    assert(piece_gives(pieces, k, n, v));
    lemma_owner_opens(pieces, k, n);
    let j = choose|j: int| 0 <= j <= k && piece_opens(pieces, j, n);
    assert(piece_opens(pieces, j, n));
    lemma_first_index_exists(pieces[j], '=');
    let q = first_index(pieces[j], '=');
    let i = choose|i: int| 0 <= i < n.len() && n[i] == c;
    assert(pieces[j].take(q)[i] == pieces[j][i]);
    assert(pieces[j][i] == c);
    assert(pieces[j].contains(c));
    lemma_split_chars(s, ',', j, c);
}

} // verus!
