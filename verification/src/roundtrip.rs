//! What holds between reading and writing: the canonical text of an entry
//! is read back as that entry, and is therefore its own canonical text.

use vstd::prelude::*;
use crate::entry::UnvalidatedProtoEntry;
use crate::errors::ProtoverError;
use crate::listing::{
    entry_text,
    has_listing,
    item_pieces,
    lemma_canonical_listing,
    lemma_listing_at,
    lemma_listing_unique,
    lemma_model_empty,
    lemma_model_insert,
    listing_has,
    listing_index,
    listing_model,
    listing_pieces,
    listing_text,
    listing_wf,
    EntryModel,
    Listing,
};
use crate::parse::{
    lemma_range_of_wf,
    meets,
    parse_pieces,
    parse_step,
    parse_text,
    range_of,
    ParseState,
    MAX_PROTOCOL_NAME_LENGTH,
};
use crate::protocol::{lemma_name_less_asymmetric, name_less};
use crate::protoset::{
    lemma_cover_take,
    range_set,
    range_text,
    ranges_cover,
    ranges_set,
    ranges_wf,
    VersionRange,
};
use crate::text::{
    decimal,
    first_index,
    is_digit,
    lemma_decimal_reads_back,
    lemma_first_index,
    lemma_first_index_exists,
    lemma_join_chars,
    lemma_split_join,
    lemma_split_nonempty,
    lemma_split_pieces_clean,
    split,
};

verus! {

/// A name that a text can give a protocol: not empty, not too long, and
/// without the two characters that end a name or a piece.
pub open spec fn name_ok(n: Seq<char>) -> bool {
    &&& 0 < n.len() <= MAX_PROTOCOL_NAME_LENGTH
    &&& !n.contains('=')
    &&& !n.contains(',')
}

/// An entry that a text can write: it names at least one protocol, every
/// name can be written, and every protocol has at least one version.
pub open spec fn printable(m: EntryModel) -> bool {
    &&& exists|n: Seq<char>| m.dom().contains(n)
    &&& forall|n: Seq<char>| #[trigger]
        m.dom().contains(n) ==> name_ok(n) && exists|v: int| m[n].contains(v)
}

/// Every protocol of the entry has a name that can be written and at
/// least one version. Such an entry can be written if it names a protocol
/// at all; if it names none, its text is empty.
pub open spec fn writable(m: EntryModel) -> bool {
    forall|n: Seq<char>| #[trigger]
        m.dom().contains(n) ==> name_ok(n) && exists|v: int| m[n].contains(v)
}

/// Whether `c` is one of the characters that the grammar itself writes: a
/// digit, the hyphen, the equals sign or the comma.
pub open spec fn is_grammar_char(c: char) -> bool {
    is_digit(c) || c == '-' || c == '=' || c == ','
}

/// Every place of the listing has a name that can be written and at least
/// one range.
pub open spec fn items_ok(l: Listing) -> bool {
    forall|i: int| 0 <= i < l.len() ==> name_ok((#[trigger] l[i]).0) && l[i].1.len() > 0
}

/// The text of a range holds digits and at most one hyphen.
pub proof fn lemma_range_text_chars(x: VersionRange, i: int)
    requires
        0 <= i < range_text(x).len(),
    ensures
        is_digit(range_text(x)[i]) || range_text(x)[i] == '-',
{
    lemma_decimal_reads_back(x.low as int);
    lemma_decimal_reads_back(x.high as int);
    let a = decimal(x.low as int);
    let b = decimal(x.high as int);
    if x.low == x.high {
        assert(is_digit(a[i]));
    } else {
        let t = a.push('-') + b;
        if i < a.len() {
            assert(is_digit(a[i]));
            assert(t[i] == a[i]);
        } else if i > a.len() {
            assert(is_digit(b[i - a.len() - 1]));
            assert(t[i] == b[i - a.len() - 1]);
        }
    }
}

/// The text of a range is read back as that range.
pub proof fn lemma_range_reads_back(x: VersionRange)
    requires
        x.wf(),
    ensures
        range_of(range_text(x)) == Ok::<VersionRange, ProtoverError>(x),
{
    lemma_decimal_reads_back(x.low as int);
    lemma_decimal_reads_back(x.high as int);
    let a = decimal(x.low as int);
    let b = decimal(x.high as int);
    assert forall|j: int| 0 <= j < a.len() implies a[j] != '-' by {
        assert(is_digit(a[j]));
    }
    if x.low == x.high {
        lemma_first_index(a, '-', a.len() as int);
    } else {
        let t = a.push('-') + b;
        assert forall|j: int| 0 <= j < a.len() implies t[j] != '-' by {
            assert(t[j] == a[j]);
        }
        assert(t[a.len() as int] == '-');
        lemma_first_index(t, '-', a.len() as int);
        assert(t.take(a.len() as int) =~= a);
        assert(t.skip(a.len() as int + 1) =~= b);
    }
}

/// A character of a piece of a listing is a digit, a hyphen, the equals
/// sign, or a character of one of the names.
pub proof fn lemma_piece_chars(l: Listing, i: int, j: int)
    requires
        0 <= i < listing_pieces(l).len(),
        0 <= j < listing_pieces(l)[i].len(),
    ensures
        ({
            let c = listing_pieces(l)[i][j];
            is_digit(c) || c == '-' || c == '=' || exists|k: int|
                0 <= k < l.len() && (#[trigger] l[k]).0.contains(c)
        }),
    decreases l.len(),
{
    let c = listing_pieces(l)[i][j];
    if l.len() > 0 {
        let f = l.drop_last();
        let front = listing_pieces(f);
        let n = l.last().0;
        let r = l.last().1;
        let own = item_pieces(n, r);
        assert(listing_pieces(l) == front + own);
        if i < front.len() {
            assert(listing_pieces(l)[i] == front[i]);
            lemma_piece_chars(f, i, j);
            if !(is_digit(c) || c == '-' || c == '=') {
                let k = choose|k: int| 0 <= k < f.len() && (#[trigger] f[k]).0.contains(c);
                assert(f[k] == l[k]);
                assert(l[k].0.contains(c));
            }
        } else {
            let k = i - front.len();
            let piece = own[k];
            assert(listing_pieces(l)[i] == piece);
            if r.len() == 0 || k == 0 {
                if j < n.len() {
                    assert(piece[j] == n[j]);
                    assert(n.contains(c));
                    assert(l[l.len() - 1].0.contains(c));
                } else if j > n.len() {
                    assert(piece[j] == range_text(r[0])[j - n.len() - 1]);
                    lemma_range_text_chars(r[0], j - n.len() - 1);
                }
            } else {
                lemma_range_text_chars(r[k], j);
            }
        }
    }
}

/// A listing with at least one range at each place has at least as many
/// pieces as places.
pub proof fn lemma_pieces_count(l: Listing)
    requires
        items_ok(l),
    ensures
        listing_pieces(l).len() >= l.len(),
    decreases l.len(),
{
    if l.len() > 0 {
        let f = l.drop_last();
        assert forall|i: int| 0 <= i < f.len() implies name_ok((#[trigger] f[i]).0) && f[i].1.len()
            > 0 by {
            assert(f[i] == l[i]);
        }
        lemma_pieces_count(f);
        assert(l[l.len() - 1].1.len() > 0);
    }
}

/// Reading the first `k` pieces of one protocol, after pieces that do not
/// name it, adds the protocol with its first `k` ranges.
proof fn lemma_item_reads(
    front: Seq<Seq<char>>,
    st: ParseState,
    n: Seq<char>,
    r: Seq<VersionRange>,
    k: int,
)
    requires
        parse_pieces(front) == Ok::<ParseState, ProtoverError>(st),
        name_ok(n),
        !st.entries.dom().contains(n),
        ranges_wf(r),
        1 <= k <= r.len(),
    ensures
        parse_pieces(front + item_pieces(n, r).take(k)) == Ok::<ParseState, ProtoverError>(
            ParseState {
                entries: st.entries.insert(n, ranges_set(r.take(k))),
                current: Some(n),
            },
        ),
    decreases k,
{
    let q = item_pieces(n, r);
    let all = front + q.take(k);
    assert(all.drop_last() =~= front + q.take(k - 1));
    assert(all.last() == q[k - 1]);
    assert(r[k - 1].wf());
    lemma_range_reads_back(r[k - 1]);
    assert forall|v: int|
        ranges_cover(r.take(k), v) == (ranges_cover(r.take(k - 1), v) || r[k - 1].covers(v)) by {
        lemma_cover_take(r, k - 1, v);
    }
    if k == 1 {
        assert(front + q.take(0) =~= front);
        let piece = q[0];
        assert(piece == n.push('=') + range_text(r[0]));
        assert forall|j: int| 0 <= j < n.len() implies piece[j] != '=' by {
            assert(piece[j] == n[j]);
            if n[j] == '=' {
                assert(n.contains('='));
            }
        }
        assert(piece[n.len() as int] == '=');
        lemma_first_index(piece, '=', n.len() as int);
        assert(piece.take(n.len() as int) =~= n);
        assert(piece.skip(n.len() as int + 1) =~= range_text(r[0]));
        assert(ranges_set(r.take(1)) =~= range_set(r[0].low as int, r[0].high as int));
        assert(parse_pieces(all) == parse_step(st, piece));
    } else {
        lemma_item_reads(front, st, n, r, k - 1);
        let piece = q[k - 1];
        assert(piece == range_text(r[k - 1]));
        assert forall|j: int| 0 <= j < piece.len() implies piece[j] != '=' by {
            lemma_range_text_chars(r[k - 1], j);
        }
        lemma_first_index(piece, '=', piece.len() as int);
        let had = ranges_set(r.take(k - 1));
        let prev = ParseState { entries: st.entries.insert(n, had), current: Some(n) };
        assert(prev.entries[n] == had);
        assert(!meets(had, r[k - 1])) by {
            if meets(had, r[k - 1]) {
                let v = choose|v: int| r[k - 1].low <= v <= r[k - 1].high && had.contains(v);
                let i = choose|i: int|
                    0 <= i < r.take(k - 1).len() && (#[trigger] r.take(k - 1)[i]).covers(v);
                assert(r.take(k - 1)[i] == r[i]);
                assert(r[i].high + 1 < r[k - 1].low);
            }
        }
        assert(had.union(range_set(r[k - 1].low as int, r[k - 1].high as int)) =~= ranges_set(
            r.take(k),
        ));
        assert(prev.entries.insert(n, ranges_set(r.take(k))) =~= st.entries.insert(
            n,
            ranges_set(r.take(k)),
        ));
        assert(parse_pieces(all) == parse_step(prev, piece));
    }
}

/// Reading the pieces of a listing gives the entry that it describes.
proof fn lemma_listing_reads(l: Listing)
    requires
        listing_wf(l),
        items_ok(l),
    ensures
        parse_pieces(listing_pieces(l)) is Ok,
        parse_pieces(listing_pieces(l))->Ok_0.entries == listing_model(l),
    decreases l.len(),
{
    if l.len() == 0 {
        lemma_model_empty();
        assert(l =~= Seq::<(Seq<char>, Seq<VersionRange>)>::empty());
    } else {
        let f = l.drop_last();
        let x = l.last();
        assert forall|i: int| 0 <= i < f.len() implies ranges_wf((#[trigger] f[i]).1) by {
            assert(f[i] == l[i]);
        }
        assert forall|i: int, j: int| 0 <= i < j < f.len() implies name_less(
            (#[trigger] f[i]).0,
            (#[trigger] f[j]).0,
        ) by {
            assert(f[i] == l[i]);
            assert(f[j] == l[j]);
        }
        assert forall|i: int| 0 <= i < f.len() implies name_ok((#[trigger] f[i]).0) && f[i].1.len()
            > 0 by {
            assert(f[i] == l[i]);
        }
        lemma_listing_reads(f);
        let st = parse_pieces(listing_pieces(f))->Ok_0;
        assert(x == l[l.len() - 1]);
        assert(!listing_has(f, x.0)) by {
            if listing_has(f, x.0) {
                let i = listing_index(f, x.0);
                assert(0 <= i < f.len() && f[i].0 == x.0);
                assert(f[i] == l[i]);
                assert(name_less(l[i].0, l[l.len() - 1].0));
                lemma_name_less_asymmetric(l[i].0, x.0);
            }
        }
        lemma_item_reads(listing_pieces(f), st, x.0, x.1, x.1.len() as int);
        assert(item_pieces(x.0, x.1).take(x.1.len() as int) =~= item_pieces(x.0, x.1));
        assert(x.1.take(x.1.len() as int) =~= x.1);
        assert(f.insert(f.len() as int, x) =~= l);
        lemma_model_insert(f, f.len() as int, x);
    }
}

/// The text of a listing that can be written is read back as the entry
/// that the listing describes.
pub proof fn lemma_listing_text_reads_back(l: Listing)
    requires
        listing_wf(l),
        items_ok(l),
        l.len() > 0,
    ensures
        parse_text(listing_text(l)) == Ok::<EntryModel, ProtoverError>(listing_model(l)),
{
    lemma_listing_reads(l);
    lemma_pieces_count(l);
    let pieces = listing_pieces(l);
    assert forall|i: int| 0 <= i < pieces.len() implies !(#[trigger] pieces[i]).contains(',') by {
        if pieces[i].contains(',') {
            let j = choose|j: int| 0 <= j < pieces[i].len() && pieces[i][j] == ',';
            lemma_piece_chars(l, i, j);
            let k = choose|k: int| 0 <= k < l.len() && (#[trigger] l[k]).0.contains(',');
            assert(name_ok(l[k].0));
        }
    }
    lemma_split_join(pieces, ',');
}

/// What has been read can be written: every protocol has a name that can
/// be written and at least one version.
pub open spec fn state_ok(st: ParseState) -> bool {
    &&& forall|n: Seq<char>| #[trigger]
        st.entries.dom().contains(n) ==> name_ok(n) && exists|v: int| st.entries[n].contains(v)
    &&& st.current matches Some(n) ==> st.entries.dom().contains(n)
}

/// Reading pieces that hold no comma leaves an entry that can be written.
proof fn lemma_parse_keeps_ok(pieces: Seq<Seq<char>>)
    requires
        forall|i: int| 0 <= i < pieces.len() ==> !(#[trigger] pieces[i]).contains(','),
        parse_pieces(pieces) is Ok,
    ensures
        state_ok(parse_pieces(pieces)->Ok_0),
        pieces.len() > 0 ==> parse_pieces(pieces)->Ok_0.current is Some,
    decreases pieces.len(),
{
    if pieces.len() > 0 {
        let front = pieces.drop_last();
        let piece = pieces.last();
        assert forall|i: int| 0 <= i < front.len() implies !(#[trigger] front[i]).contains(
            ',',
        ) by {
            assert(front[i] == pieces[i]);
        }
        lemma_parse_keeps_ok(front);
        let st = parse_pieces(front)->Ok_0;
        let next = parse_pieces(pieces)->Ok_0;
        assert(parse_step(st, piece) == Ok::<ParseState, ProtoverError>(next));
        assert(piece == pieces[pieces.len() - 1]);
        let q = first_index(piece, '=');
        lemma_first_index_exists(piece, '=');
        if q < piece.len() {
            let name = piece.take(q);
            let r = range_of(piece.skip(q + 1))->Ok_0;
            lemma_range_of_wf(piece.skip(q + 1));
            assert(!name.contains('=')) by {
                if name.contains('=') {
                    let j = choose|j: int| 0 <= j < name.len() && name[j] == '=';
                    assert(piece[j] == '=');
                }
            }
            assert(!name.contains(',')) by {
                if name.contains(',') {
                    let j = choose|j: int| 0 <= j < name.len() && name[j] == ',';
                    assert(piece[j] == ',');
                    assert(piece.contains(','));
                }
            }
            assert(range_set(r.low as int, r.high as int).contains(r.low as int));
            assert forall|n: Seq<char>| #[trigger]
                next.entries.dom().contains(n) implies name_ok(n) && exists|v: int|
                next.entries[n].contains(v) by {
                if n == name {
                    assert(next.entries[n].contains(r.low as int));
                } else {
                    assert(st.entries.dom().contains(n));
                    let v = choose|v: int| st.entries[n].contains(v);
                    assert(next.entries[n].contains(v));
                }
            }
        } else {
            let name = st.current->Some_0;
            let r = range_of(piece)->Ok_0;
            lemma_range_of_wf(piece);
            assert(range_set(r.low as int, r.high as int).contains(r.low as int));
            assert forall|n: Seq<char>| #[trigger]
                next.entries.dom().contains(n) implies name_ok(n) && exists|v: int|
                next.entries[n].contains(v) by {
                if n == name {
                    assert(next.entries[n].contains(r.low as int));
                } else {
                    assert(st.entries.dom().contains(n));
                    let v = choose|v: int| st.entries[n].contains(v);
                    assert(next.entries[n].contains(v));
                }
            }
        }
    }
}

/// Whatever a text is read as can be written.
pub proof fn lemma_parsed_is_printable(s: Seq<char>)
    requires
        parse_text(s) is Ok,
    ensures
        printable(parse_text(s)->Ok_0),
{
    let pieces = split(s, ',');
    lemma_split_nonempty(s, ',');
    assert forall|i: int| 0 <= i < pieces.len() implies !(#[trigger] pieces[i]).contains(',') by {
        lemma_split_pieces_clean(s, ',', i);
    }
    lemma_parse_keeps_ok(pieces);
    let st = parse_pieces(pieces)->Ok_0;
    assert(st.entries.dom().contains(st.current->Some_0));
}

/// The canonical text of an entry that can be written is read back as
/// that entry.
pub proof fn lemma_text_reads_back(e: UnvalidatedProtoEntry)
    requires
        e.wf(),
        printable(e@),
    ensures
        parse_text(entry_text(e@)) == Ok::<EntryModel, ProtoverError>(e@),
{
    let l = e.listing();
    lemma_canonical_listing(l);
    assert forall|i: int| 0 <= i < l.len() implies name_ok((#[trigger] l[i]).0) && l[i].1.len()
        > 0 by {
        lemma_listing_at(l, i);
        assert(e@.dom().contains(l[i].0));
        let v = choose|v: int| e@[l[i].0].contains(v);
        assert(ranges_cover(l[i].1, v));
    }
    let n = choose|n: Seq<char>| e@.dom().contains(n);
    assert(listing_has(l, n));
    lemma_listing_text_reads_back(l);
}

/// The text of a listing whose protocols all have a name that can be
/// written and at least one version: it is the canonical text of the
/// entry, it is empty if the listing is, and otherwise it is read back as
/// the entry.
pub proof fn lemma_listing_written_reads_back(l: Listing)
    requires
        listing_wf(l),
        writable(listing_model(l)),
    ensures
        has_listing(listing_model(l)),
        entry_text(listing_model(l)) == listing_text(l),
        l.len() == 0 ==> entry_text(listing_model(l)).len() == 0,
        l.len() > 0 ==> parse_text(entry_text(listing_model(l))) == Ok::<
            EntryModel,
            ProtoverError,
        >(listing_model(l)),
        entry_text(listing_model(l)).len() > 0 ==> parse_text(entry_text(listing_model(l)))
            == Ok::<EntryModel, ProtoverError>(listing_model(l)),
{
    let m = listing_model(l);
    lemma_canonical_listing(l);
    if l.len() == 0 {
        assert(listing_pieces(l) =~= Seq::<Seq<char>>::empty());
    } else {
        assert forall|i: int| 0 <= i < l.len() implies name_ok((#[trigger] l[i]).0) && l[i].1.len()
            > 0 by {
            lemma_listing_at(l, i);
            assert(m.dom().contains(l[i].0));
            let v = choose|v: int| m[l[i].0].contains(v);
            assert(ranges_cover(l[i].1, v));
        }
        lemma_listing_text_reads_back(l);
    }
}

/// Round trip: an entry that was read from a text, written in canonical
/// form and read again, is the same entry: the same protocols, each with
/// the same versions.
pub proof fn lemma_round_trip(s: Seq<char>, e: UnvalidatedProtoEntry)
    requires
        e.wf(),
        parse_text(s) == Ok::<EntryModel, ProtoverError>(e@),
    ensures
        parse_text(entry_text(e@)) == Ok::<EntryModel, ProtoverError>(e@),
{
    lemma_parsed_is_printable(s);
    lemma_text_reads_back(e);
}

/// The canonical text is a fixed point: writing an entry, reading the
/// text and writing what was read gives the same text again.
pub proof fn lemma_canonical_text_is_fixed(s: Seq<char>, e: UnvalidatedProtoEntry)
    requires
        e.wf(),
        parse_text(s) == Ok::<EntryModel, ProtoverError>(e@),
    ensures
        parse_text(entry_text(e@)) is Ok,
        entry_text(parse_text(entry_text(e@))->Ok_0) == entry_text(e@),
{
    lemma_round_trip(s, e);
}

/// Two entries that give the same versions for the same protocols are
/// kept in the same way, and so have the same canonical text.
pub proof fn lemma_equal_entries_equal_text(a: UnvalidatedProtoEntry, b: UnvalidatedProtoEntry)
    requires
        a.wf(),
        b.wf(),
        a@ == b@,
    ensures
        a.listing() == b.listing(),
        entry_text(a@) == entry_text(b@),
{
    lemma_listing_unique(a.listing(), b.listing());
}

/// A character of the text of a listing is a digit, a hyphen, an equals
/// sign, a comma, or a character of one of the names.
pub proof fn lemma_text_chars(l: Listing, c: char)
    requires
        listing_text(l).contains(c),
    ensures
        is_digit(c) || c == '-' || c == '=' || c == ',' || exists|k: int|
            0 <= k < l.len() && (#[trigger] l[k]).0.contains(c),
{
    lemma_join_chars(listing_pieces(l), ',', c);
    if c != ',' {
        let pieces = listing_pieces(l);
        let i = choose|i: int| 0 <= i < pieces.len() && (#[trigger] pieces[i]).contains(c);
        let j = choose|j: int| 0 <= j < pieces[i].len() && pieces[i][j] == c;
        lemma_piece_chars(l, i, j);
    }
}

} // verus!
