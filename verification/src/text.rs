//! Texts as sequences of characters: decimal numbers, splitting and joining.

use vstd::prelude::*;
use crate::errors::ProtoverError;

verus! {

/// Taken on trust of the standard library: after `String::push` the
/// string holds the characters that it held before, followed by `ch`.
pub assume_specification[ String::push ](s: &mut String, ch: char)
    ensures
        final(s)@ == old(s)@.push(ch),
;

/// The largest version that a list may name.
pub const MAX_VERSION: u32 = 4294967294;

/// The characters of `s`, in order.
pub fn chars_of(s: &str) -> (v: Vec<char>)
    ensures
        v@ == s@,
{
    let mut v: Vec<char> = Vec::new();
    for c in it: s.chars()
        invariant
            it.seq() == s@,
            v@ == it.seq().take(it.index() as int),
    {
        v.push(c);
    }
    assert(s@.take(s@.len() as int) == s@);
    v
}

/// The string made of the characters of `v`, in order.
pub fn string_of(v: &Vec<char>) -> (s: String)
    ensures
        s@ == v@,
{
    let mut s = String::new();
    let mut i: usize = 0;
    while i < v.len()
        invariant
            i <= v.len(),
            s@ == v@.take(i as int),
        decreases v.len() - i,
    {
        s.push(v[i]);
        i = i + 1;
    }
    assert(v@.take(v.len() as int) == v@);
    s
}

/// The characters of `v` from position `from` up to, not including, `to`.
pub fn slice_copy(v: &Vec<char>, from: usize, to: usize) -> (r: Vec<char>)
    requires
        from <= to <= v.len(),
    ensures
        r@ == v@.subrange(from as int, to as int),
{
    let mut r: Vec<char> = Vec::new();
    let mut i: usize = from;
    while i < to
        invariant
            from <= i <= to <= v.len(),
            r@ == v@.subrange(from as int, i as int),
        decreases to - i,
    {
        r.push(v[i]);
        i = i + 1;
    }
    r
}

/// Whether two texts hold the same characters.
pub fn chars_eq(a: &Vec<char>, b: &Vec<char>) -> (r: bool)
    ensures
        r == (a@ == b@),
{
    if a.len() != b.len() {
        return false;
    }
    let mut i: usize = 0;
    while i < a.len()
        invariant
            i <= a.len(),
            a.len() == b.len(),
            a@.take(i as int) == b@.take(i as int),
        decreases a.len() - i,
    {
        if a[i] != b[i] {
            return false;
        }
        assert(a@.take(i + 1) == a@.take(i as int).push(a@[i as int]));
        assert(b@.take(i + 1) == b@.take(i as int).push(b@[i as int]));
        i = i + 1;
    }
    assert(a@.take(a.len() as int) == a@);
    assert(b@.take(b.len() as int) == b@);
    true
}

// ---------------------------------------------------------------------
// First occurrence of a character
// ---------------------------------------------------------------------

/// `i` is where `c` first occurs in `s`, or the length of `s` if it never does.
pub open spec fn is_first_index(s: Seq<char>, c: char, i: int) -> bool {
    &&& 0 <= i <= s.len()
    &&& forall|j: int| 0 <= j < i ==> s[j] != c
    &&& i < s.len() ==> s[i] == c
}

/// Where `c` first occurs in `s`, or the length of `s` if it never does.
pub open spec fn first_index(s: Seq<char>, c: char) -> int {
    choose|i: int| is_first_index(s, c, i)
}

/// There is only one first occurrence.
pub proof fn lemma_first_index(s: Seq<char>, c: char, i: int)
    requires
        is_first_index(s, c, i),
    ensures
        first_index(s, c) == i,
{
    let k = first_index(s, c);
    assert(is_first_index(s, c, k));
    if k < i {
        assert(s[k] != c);
    }
    if i < k {
        assert(s[i] != c);
    }
}

/// Every text has a first occurrence of `c`, or its end in place of one.
pub proof fn lemma_first_index_exists(s: Seq<char>, c: char)
    ensures
        is_first_index(s, c, first_index(s, c)),
    decreases s.len(),
{
    if s.len() == 0 {
        assert(is_first_index(s, c, 0));
    } else {
        let f = s.drop_last();
        lemma_first_index_exists(f, c);
        let k = first_index(f, c);
        assert forall|j: int| 0 <= j < k implies s[j] != c by {
            assert(f[j] != c);
        }
        if k < f.len() {
            assert(f[k] == c);
            assert(is_first_index(s, c, k));
        } else if s.last() == c {
            assert(is_first_index(s, c, s.len() - 1));
        } else {
            assert(is_first_index(s, c, s.len() as int));
        }
    }
}

/// Finds the first `c` in `v`.
pub fn find_char(v: &Vec<char>, c: char) -> (i: usize)
    ensures
        i == first_index(v@, c),
        is_first_index(v@, c, i as int),
{
    let mut i: usize = 0;
    while i < v.len() && v[i] != c
        invariant
            i <= v.len(),
            forall|j: int| 0 <= j < i ==> v@[j] != c,
        decreases v.len() - i,
    {
        i = i + 1;
    }
    proof {
        lemma_first_index(v@, c, i as int);
    }
    i
}

// ---------------------------------------------------------------------
// Decimal numbers
// ---------------------------------------------------------------------

/// Whether `c` is one of the ten decimal digits.
pub open spec fn is_digit(c: char) -> bool {
    '0' <= c && c <= '9'
}

/// The value of the digit `c`.
pub open spec fn digit_value(c: char) -> int {
    c as int - '0' as int
}

/// The digit whose value is `d`.
pub open spec fn digit_char(d: int) -> char {
    if d == 0 {
        '0'
    } else if d == 1 {
        '1'
    } else if d == 2 {
        '2'
    } else if d == 3 {
        '3'
    } else if d == 4 {
        '4'
    } else if d == 5 {
        '5'
    } else if d == 6 {
        '6'
    } else if d == 7 {
        '7'
    } else if d == 8 {
        '8'
    } else {
        '9'
    }
}

/// Whether `s` is one or more decimal digits and nothing else.
pub open spec fn is_number(s: Seq<char>) -> bool {
    &&& s.len() > 0
    &&& forall|i: int| 0 <= i < s.len() ==> is_digit(#[trigger] s[i])
}

/// The number that the digits of `s` write in base ten.
pub open spec fn digits_value(s: Seq<char>) -> int
    decreases s.len(),
{
    if s.len() == 0 {
        0
    } else {
        digits_value(s.drop_last()) * 10 + digit_value(s.last())
    }
}

/// The version that `s` writes: digits only, and no more than `MAX_VERSION`.
pub open spec fn number_of(s: Seq<char>) -> Result<u32, ProtoverError> {
    if !is_number(s) {
        Err(ProtoverError::Unparseable)
    } else if digits_value(s) > MAX_VERSION {
        Err(ProtoverError::ExceedsMax)
    } else {
        Ok(digits_value(s) as u32)
    }
}

/// The shortest decimal writing of `n`.
pub open spec fn decimal(n: int) -> Seq<char>
    decreases n,
{
    if n < 10 {
        seq![digit_char(n)]
    } else {
        decimal(n / 10).push(digit_char(n % 10))
    }
}

/// A text of digits has a value that is not negative.
pub proof fn lemma_digits_value_nonnegative(s: Seq<char>)
    requires
        forall|i: int| 0 <= i < s.len() ==> is_digit(#[trigger] s[i]),
    ensures
        digits_value(s) >= 0,
    decreases s.len(),
{
    if s.len() > 0 {
        lemma_digits_value_nonnegative(s.drop_last());
        assert(is_digit(s[s.len() - 1]));
    }
}

/// A version that was read is the value of its digits.
pub proof fn lemma_number_of(s: Seq<char>)
    ensures
        number_of(s) matches Ok(n) ==> n == digits_value(s) && n <= MAX_VERSION,
{
    if is_number(s) {
        lemma_digits_value_nonnegative(s);
    }
}

/// What `decimal` writes is read back as the same number, and holds digits only.
pub proof fn lemma_decimal_reads_back(n: int)
    requires
        0 <= n,
    ensures
        is_number(decimal(n)),
        digits_value(decimal(n)) == n,
    decreases n,
{
    if n < 10 {
        let s = decimal(n);
        assert(s.drop_last() =~= Seq::<char>::empty());
        assert(digits_value(s.drop_last()) == 0);
    } else {
        lemma_decimal_reads_back(n / 10);
        let s = decimal(n);
        assert(s.drop_last() =~= decimal(n / 10));
        assert forall|i: int| 0 <= i < s.len() implies is_digit(#[trigger] s[i]) by {
            if i < s.len() - 1 {
                assert(s[i] == decimal(n / 10)[i]);
            }
        }
    }
}

/// The digit with value `d`.
pub fn digit_to_char(d: u32) -> (c: char)
    requires
        d < 10,
    ensures
        c == digit_char(d as int),
{
    if d == 0 {
        '0'
    } else if d == 1 {
        '1'
    } else if d == 2 {
        '2'
    } else if d == 3 {
        '3'
    } else if d == 4 {
        '4'
    } else if d == 5 {
        '5'
    } else if d == 6 {
        '6'
    } else if d == 7 {
        '7'
    } else if d == 8 {
        '8'
    } else {
        '9'
    }
}

/// Appends the decimal writing of `n` to `out`.
pub fn push_decimal(out: &mut Vec<char>, n: u32)
    ensures
        final(out)@ == old(out)@ + decimal(n as int),
    decreases n,
{
    if n < 10 {
        out.push(digit_to_char(n));
        assert(old(out)@.push(digit_char(n as int)) =~= old(out)@ + decimal(n as int));
    } else {
        push_decimal(out, n / 10);
        out.push(digit_to_char(n % 10));
        assert((old(out)@ + decimal(n as int / 10)).push(digit_char(n as int % 10)) =~= old(out)@
            + decimal(n as int));
    }
}

/// Reads a version written in decimal digits.
pub fn parse_number(v: &Vec<char>) -> (r: Result<u32, ProtoverError>)
    ensures
        r == number_of(v@),
{
    if v.len() == 0 {
        return Err(ProtoverError::Unparseable);
    }
    let mut acc: u32 = 0;
    let mut over: bool = false;
    let mut i: usize = 0;
    while i < v.len()
        invariant
            i <= v.len(),
            forall|j: int| 0 <= j < i ==> is_digit(#[trigger] v@[j]),
            acc <= MAX_VERSION,
            !over ==> acc == digits_value(v@.take(i as int)),
            over ==> digits_value(v@.take(i as int)) > MAX_VERSION,
        decreases v.len() - i,
    {
        let c: char = v[i];
        if !(c >= '0' && c <= '9') {
            assert(!is_digit(v@[i as int]));
            return Err(ProtoverError::Unparseable);
        }
        let d: u32 = c as u32 - '0' as u32;
        proof {
            assert(v@.take(i + 1).drop_last() =~= v@.take(i as int));
            assert(v@.take(i + 1).last() == c);
        }
        if !over {
            let wide: u64 = acc as u64 * 10 + d as u64;
            if wide > MAX_VERSION as u64 {
                over = true;
            } else {
                acc = wide as u32;
            }
        }
        i = i + 1;
    }
    assert(v@.take(v.len() as int) =~= v@);
    if over {
        Err(ProtoverError::ExceedsMax)
    } else {
        Ok(acc)
    }
}

// ---------------------------------------------------------------------
// Splitting and joining
// ---------------------------------------------------------------------

/// The pieces of `s` between occurrences of `sep`. A text with `n`
/// separators has `n + 1` pieces, some of which may be empty.
pub open spec fn split(s: Seq<char>, sep: char) -> Seq<Seq<char>>
    decreases s.len(),
{
    if s.len() == 0 {
        seq![Seq::<char>::empty()]
    } else {
        let p = split(s.drop_last(), sep);
        if s.last() == sep {
            p.push(Seq::<char>::empty())
        } else {
            p.drop_last().push(p.last().push(s.last()))
        }
    }
}

/// The pieces written one after another with `sep` between them.
pub open spec fn join(pieces: Seq<Seq<char>>, sep: char) -> Seq<char>
    decreases pieces.len(),
{
    if pieces.len() == 0 {
        Seq::<char>::empty()
    } else if pieces.len() == 1 {
        pieces[0]
    } else {
        join(pieces.drop_last(), sep).push(sep) + pieces.last()
    }
}

/// The texts that a vector of character vectors holds.
pub open spec fn pieces_view(v: Seq<Vec<char>>) -> Seq<Seq<char>> {
    Seq::new(v.len(), |i: int| v[i]@)
}

/// Splitting always gives at least one piece.
pub proof fn lemma_split_nonempty(s: Seq<char>, sep: char)
    ensures
        split(s, sep).len() >= 1,
    decreases s.len(),
{
    if s.len() > 0 {
        lemma_split_nonempty(s.drop_last(), sep);
    }
}

/// Appending a text without separators lengthens the last piece.
pub proof fn lemma_split_append(a: Seq<char>, b: Seq<char>, sep: char)
    requires
        !b.contains(sep),
    ensures
        split(a, sep).len() >= 1,
        split(a + b, sep) == split(a, sep).drop_last().push(split(a, sep).last() + b),
    decreases b.len(),
{
    lemma_split_nonempty(a, sep);
    let p = split(a, sep);
    if b.len() == 0 {
        assert(a + b =~= a);
        assert(p.last() + b =~= p.last());
        assert(p.drop_last().push(p.last()) =~= p);
    } else {
        let b0 = b.drop_last();
        assert(!b0.contains(sep)) by {
            if b0.contains(sep) {
                let j = choose|j: int| 0 <= j < b0.len() && b0[j] == sep;
                assert(b[j] == sep);
            }
        }
        lemma_split_append(a, b0, sep);
        assert((a + b).drop_last() =~= a + b0);
        assert((a + b).last() == b.last());
        assert(b.last() != sep) by {
            if b.last() == sep {
                assert(b[b.len() - 1] == sep);
            }
        }
        let q = split(a + b0, sep);
        assert(q.drop_last() =~= p.drop_last());
        assert(q.last().push(b.last()) =~= p.last() + b);
    }
}

/// A text without separators is a single piece.
pub proof fn lemma_split_single(b: Seq<char>, sep: char)
    requires
        !b.contains(sep),
    ensures
        split(b, sep) == seq![b],
{
    let e = Seq::<char>::empty();
    lemma_split_append(e, b, sep);
    assert(e + b =~= b);
    assert(split(e, sep) =~= seq![e]);
    assert(split(e, sep).drop_last().push(split(e, sep).last() + b) =~= seq![b]);
}

/// No piece of a split text holds the separator.
pub proof fn lemma_split_pieces_clean(s: Seq<char>, sep: char, i: int)
    requires
        0 <= i < split(s, sep).len(),
    ensures
        !split(s, sep)[i].contains(sep),
    decreases s.len(),
{
    let piece = split(s, sep)[i];
    if piece.contains(sep) {
        let j = choose|j: int| 0 <= j < piece.len() && piece[j] == sep;
        if s.len() > 0 {
            let p = split(s.drop_last(), sep);
            lemma_split_nonempty(s.drop_last(), sep);
            if s.last() == sep {
                if i < p.len() {
                    lemma_split_pieces_clean(s.drop_last(), sep, i);
                    assert(p[i].contains(sep));
                }
            } else {
                if i < p.len() - 1 {
                    lemma_split_pieces_clean(s.drop_last(), sep, i);
                    assert(p[i] == piece);
                } else {
                    lemma_split_pieces_clean(s.drop_last(), sep, p.len() - 1);
                    if j < p.last().len() {
                        assert(p.last()[j] == sep);
                        assert(p.last().contains(sep));
                    }
                }
            }
        }
    }
}

/// A character of a piece of a split text is a character of the text.
pub proof fn lemma_split_chars(s: Seq<char>, sep: char, i: int, c: char)
    requires
        0 <= i < split(s, sep).len(),
        split(s, sep)[i].contains(c),
    ensures
        s.contains(c),
    decreases s.len(),
{
    let piece = split(s, sep)[i];
    let j = choose|j: int| 0 <= j < piece.len() && piece[j] == c;
    if s.len() > 0 {
        let f = s.drop_last();
        let p = split(f, sep);
        lemma_split_nonempty(f, sep);
        if s.last() == sep {
            if i < p.len() {
                assert(p[i] == piece);
                lemma_split_chars(f, sep, i, c);
            }
        } else {
            if i < p.len() - 1 {
                assert(p[i] == piece);
                lemma_split_chars(f, sep, i, c);
            } else if j < p.last().len() {
                assert(p.last()[j] == c);
                assert(p[p.len() - 1].contains(c));
                lemma_split_chars(f, sep, p.len() - 1, c);
            } else {
                assert(s[s.len() - 1] == c);
            }
        }
        if f.contains(c) {
            let k = choose|k: int| 0 <= k < f.len() && f[k] == c;
            assert(s[k] == c);
        }
    }
}

/// A character of a joined text is the separator or stands in a piece.
pub proof fn lemma_join_chars(pieces: Seq<Seq<char>>, sep: char, c: char)
    requires
        join(pieces, sep).contains(c),
    ensures
        c == sep || exists|i: int| 0 <= i < pieces.len() && (#[trigger] pieces[i]).contains(c),
    decreases pieces.len(),
{
    let t = join(pieces, sep);
    let j = choose|j: int| 0 <= j < t.len() && t[j] == c;
    if pieces.len() == 0 {
    } else if pieces.len() == 1 {
        assert(pieces[0].contains(c));
    } else {
        let front = join(pieces.drop_last(), sep);
        if j < front.len() {
            assert(front[j] == c);
            assert(front.contains(c));
            lemma_join_chars(pieces.drop_last(), sep, c);
            if c != sep {
                let i = choose|i: int|
                    0 <= i < pieces.drop_last().len() && (#[trigger] pieces.drop_last()[i]).contains(
                        c,
                    );
                assert(pieces[i].contains(c));
            }
        } else if j > front.len() {
            assert(pieces.last()[j - front.len() - 1] == c);
            assert(pieces[pieces.len() - 1].contains(c));
        }
    }
}

/// Splitting undoes joining, as long as no piece holds a separator.
pub proof fn lemma_split_join(pieces: Seq<Seq<char>>, sep: char)
    requires
        pieces.len() >= 1,
        forall|i: int| 0 <= i < pieces.len() ==> !(#[trigger] pieces[i]).contains(sep),
    ensures
        split(join(pieces, sep), sep) == pieces,
    decreases pieces.len(),
{
    if pieces.len() == 1 {
        lemma_split_single(pieces[0], sep);
        assert(seq![pieces[0]] =~= pieces);
    } else {
        let front = pieces.drop_last();
        assert forall|i: int| 0 <= i < front.len() implies !(#[trigger] front[i]).contains(
            sep,
        ) by {
            assert(front[i] == pieces[i]);
        }
        lemma_split_join(front, sep);
        let a = join(front, sep).push(sep);
        assert(a.drop_last() =~= join(front, sep));
        assert(split(a, sep) == front.push(Seq::<char>::empty()));
        lemma_split_append(a, pieces.last(), sep);
        let p = split(a, sep);
        assert(p.drop_last() =~= front);
        assert(p.last() + pieces.last() =~= pieces.last());
        assert(front.push(pieces.last()) =~= pieces);
    }
}

/// Joining one piece more: the separator and the piece are appended, or
/// the piece alone where there was none before.
pub proof fn lemma_join_push(pieces: Seq<Seq<char>>, x: Seq<char>, sep: char)
    ensures
        join(pieces.push(x), sep) == if pieces.len() == 0 {
            x
        } else {
            join(pieces, sep).push(sep) + x
        },
{
    let q = pieces.push(x);
    assert(q.drop_last() =~= pieces);
    assert(q.last() == x);
}

/// Appends the characters of `src` to `out`.
pub fn append_chars(out: &mut Vec<char>, src: &Vec<char>)
    ensures
        final(out)@ == old(out)@ + src@,
{
    let mut i: usize = 0;
    assert(out@ =~= old(out)@ + src@.take(0));
    while i < src.len()
        invariant
            i <= src.len(),
            out@ == old(out)@ + src@.take(i as int),
        decreases src.len() - i,
    {
        out.push(src[i]);
        assert(src@.take(i + 1) =~= src@.take(i as int).push(src@[i as int]));
        assert(out@ =~= old(out)@ + src@.take(i + 1));
        i = i + 1;
    }
    assert(src@.take(src.len() as int) =~= src@);
}

/// Cuts `v` at every `sep`.
pub fn split_chars(v: &Vec<char>, sep: char) -> (r: Vec<Vec<char>>)
    ensures
        pieces_view(r@) == split(v@, sep),
{
    let mut done: Vec<Vec<char>> = Vec::new();
    let mut cur: Vec<char> = Vec::new();
    let mut i: usize = 0;
    assert(pieces_view(done@).push(cur@) =~= split(v@.take(0), sep));
    while i < v.len()
        invariant
            i <= v.len(),
            pieces_view(done@).push(cur@) == split(v@.take(i as int), sep),
        decreases v.len() - i,
    {
        let c: char = v[i];
        proof {
            assert(v@.take(i + 1).drop_last() =~= v@.take(i as int));
            assert(v@.take(i + 1).last() == c);
        }
        let ghost before = pieces_view(done@);
        let ghost last = cur@;
        if c == sep {
            done.push(cur);
            cur = Vec::new();
            assert(pieces_view(done@) =~= before.push(last));
        } else {
            cur.push(c);
            assert(before.push(last).drop_last() =~= before);
        }
        i = i + 1;
    }
    assert(v@.take(v.len() as int) =~= v@);
    let ghost before = pieces_view(done@);
    let ghost last = cur@;
    done.push(cur);
    assert(pieces_view(done@) =~= before.push(last));
    done
}

} // verus!
