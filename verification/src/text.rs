//! Text as sequences of characters: white space, fields, decimal numerals and substitution.
use vstd::prelude::*;

verus! {

/// The characters with the Unicode property `White_Space`.
pub open spec fn white_space(c: char) -> bool {
    let n = c as u32;
    ||| 0x09 <= n <= 0x0d
    ||| n == 0x20
    ||| n == 0x85
    ||| n == 0xa0
    ||| n == 0x1680
    ||| 0x2000 <= n <= 0x200a
    ||| n == 0x2028
    ||| n == 0x2029
    ||| n == 0x202f
    ||| n == 0x205f
    ||| n == 0x3000
}

/// Is `c` a white-space character?
pub fn is_white_space(c: char) -> (r: bool)
    ensures
        r == white_space(c),
{
    let n: u32 = c as u32;
    (0x09 <= n && n <= 0x0d) || n == 0x20 || n == 0x85 || n == 0xa0 || n == 0x1680 || (0x2000 <= n
        && n <= 0x200a) || n == 0x2028 || n == 0x2029 || n == 0x202f || n == 0x205f || n == 0x3000
}

/// The characters of `s`, in order.
pub fn chars_of(s: &str) -> (v: Vec<char>)
    ensures
        v@ == s@,
{
    let mut v: Vec<char> = Vec::new();
    for c in it: s.chars()
        invariant
            v@ == it.seq().take(it.index() as int),
            it.seq() == s@,
    {
        v.push(c);
    }
    v
}

/// `String::push` puts one character behind those already there.
pub assume_specification[ String::push ](s: &mut String, ch: char)
    ensures
        final(s)@ == old(s)@.push(ch),
;

/// The string made of the given characters.
pub fn string_of(v: &Vec<char>) -> (s: String)
    ensures
        s@ == v@,
{
    let mut s = String::new();
    for i in 0..v.len()
        invariant
            s@ == v@.take(i as int),
    {
        s.push(v[i]);
    }
    s
}

/// Nothing but white space: trimming leaves nothing.
pub open spec fn blank(s: Seq<char>) -> bool {
    forall|i: int| 0 <= i < s.len() ==> white_space(#[trigger] s[i])
}

/// Does trimming `s` leave nothing?
pub fn is_blank(s: &str) -> (r: bool)
    ensures
        r == blank(s@),
{
    let v = chars_of(s);
    for i in 0..v.len()
        invariant
            forall|j: int| 0 <= j < i ==> white_space(#[trigger] v@[j]),
            v@ == s@,
    {
        if !is_white_space(v[i]) {
            assert(!white_space(s@[i as int]));
            return false;
        }
    }
    true
}

/// Do two runs of characters agree?
pub fn same_chars(a: &Vec<char>, b: &Vec<char>) -> (r: bool)
    ensures
        r == (a@ == b@),
{
    if a.len() != b.len() {
        return false;
    }
    for i in 0..a.len()
        invariant
            a.len() == b.len(),
            forall|j: int| 0 <= j < i ==> a@[j] == b@[j],
    {
        if a[i] != b[i] {
            return false;
        }
    }
    assert(a@ =~= b@);
    true
}

/// Does `s` end with `suffix`?
pub fn ends_with(s: &Vec<char>, suffix: &Vec<char>) -> (r: bool)
    ensures
        r == suffix@.is_suffix_of(s@),
{
    if suffix.len() > s.len() {
        return false;
    }
    let start: usize = s.len() - suffix.len();
    for i in 0..suffix.len()
        invariant
            start + suffix.len() == s.len(),
            forall|j: int| 0 <= j < i ==> s@[start + j] == suffix@[j],
    {
        if s[start + i] != suffix[i] {
            assert(s@.subrange(start as int, s@.len() as int)[i as int] == s@[start + i]);
            return false;
        }
    }
    assert(s@.subrange(start as int, s@.len() as int) =~= suffix@);
    true
}

/// The length of the longest prefix of `s` that holds no white space.
pub open spec fn field_len(s: Seq<char>) -> nat
    decreases s.len(),
{
    if s.len() == 0 || white_space(s[0]) {
        0
    } else {
        1 + field_len(s.skip(1))
    }
}

/// The maximal runs of characters other than white space, in order.
pub open spec fn fields(s: Seq<char>) -> Seq<Seq<char>>
    decreases s.len(),
{
    if s.len() == 0 {
        seq![]
    } else if white_space(s[0]) {
        fields(s.skip(1))
    } else {
        proof {
            lemma_field_len_bound(s);
        }
        seq![s.take(field_len(s) as int)] + fields(s.skip(field_len(s) as int))
    }
}

/// The first field of a text is no longer than the text.
pub proof fn lemma_field_len_bound(s: Seq<char>)
    ensures
        field_len(s) <= s.len(),
    decreases s.len(),
{
    if s.len() > 0 {
        lemma_field_len_bound(s.skip(1));
    }
}

proof fn lemma_field_len(s: Seq<char>, n: int)
    requires
        0 <= n <= s.len(),
        forall|j: int| 0 <= j < n ==> !white_space(#[trigger] s[j]),
        n == s.len() || white_space(s[n]),
    ensures
        field_len(s) == n,
    decreases s.len(),
{
    if n > 0 {
        let t = s.skip(1);
        assert forall|j: int| 0 <= j < n - 1 implies !white_space(#[trigger] t[j]) by {
            assert(t[j] == s[j + 1]);
        }
        lemma_field_len(t, n - 1);
    }
}

proof fn lemma_field_len_push(s: Seq<char>, c: char)
    requires
        white_space(c),
    ensures
        field_len(s.push(c)) == field_len(s),
    decreases s.len(),
{
    if s.len() > 0 {
        lemma_field_len_push(s.skip(1), c);
        assert(s.push(c).skip(1) =~= s.skip(1).push(c));
    } else {
        assert(s.push(c)[0] == c);
    }
}

/// White space at the end of a text adds nothing to its fields.
pub proof fn lemma_fields_push(s: Seq<char>, c: char)
    requires
        white_space(c),
    ensures
        fields(s.push(c)) == fields(s),
    decreases s.len(),
{
    let t = s.push(c);
    if s.len() == 0 {
        assert(t.skip(1) =~= s);
        assert(t[0] == c);
    } else if white_space(s[0]) {
        lemma_fields_push(s.skip(1), c);
        assert(t.skip(1) =~= s.skip(1).push(c));
    } else {
        let n = field_len(s) as int;
        lemma_field_len_bound(s);
        lemma_field_len_push(s, c);
        lemma_fields_push(s.skip(n), c);
        assert(t[0] == s[0]);
        assert(t.skip(n) =~= s.skip(n).push(c));
        assert(t.take(n) =~= s.take(n));
    }
}

/// The items at positions `from` up to `to`.
fn slice_of<T: Copy>(s: &Vec<T>, from: usize, to: usize) -> (r: Vec<T>)
    requires
        from <= to <= s.len(),
    ensures
        r@ == s@.subrange(from as int, to as int),
{
    let mut r: Vec<T> = Vec::new();
    for i in from..to
        invariant
            from <= to <= s.len(),
            r@ == s@.subrange(from as int, i as int),
    {
        r.push(s[i]);
    }
    r
}

/// The sequences that a vector of vectors stands for.
pub open spec fn views<T>(v: Seq<Vec<T>>) -> Seq<Seq<T>> {
    v.map_values(|f: Vec<T>| f@)
}

/// Splits a line into its fields.
pub fn split_fields(s: &Vec<char>) -> (r: Vec<Vec<char>>)
    ensures
        views(r@) == fields(s@),
{
    let mut r: Vec<Vec<char>> = Vec::new();
    let mut pos: usize = 0;
    assert(s@.skip(0) =~= s@);
    assert(views(r@) + fields(s@) =~= fields(s@));
    while pos < s.len()
        invariant
            pos <= s.len(),
            fields(s@) == views(r@) + fields(s@.skip(pos as int)),
        decreases s.len() - pos,
    {
        let ghost rest = s@.skip(pos as int);
        if is_white_space(s[pos]) {
            assert(rest.skip(1) =~= s@.skip(pos + 1));
            pos = pos + 1;
        } else {
            let start: usize = pos;
            while pos < s.len() && !is_white_space(s[pos])
                invariant
                    start <= pos <= s.len(),
                    forall|j: int| start <= j < pos ==> !white_space(#[trigger] s@[j]),
                decreases s.len() - pos,
            {
                pos = pos + 1;
            }
            assert(pos > start) by {
                assert(!white_space(s@[start as int]));
            }
            let ghost n = pos - start;
            let ghost before = views(r@);
            r.push(slice_of(s, start, pos));
            proof {
                assert forall|j: int| 0 <= j < n implies !white_space(#[trigger] rest[j]) by {
                    assert(rest[j] == s@[start + j]);
                }
                lemma_field_len(rest, n);
                assert(rest.take(n) =~= s@.subrange(start as int, pos as int));
                assert(rest.skip(n) =~= s@.skip(pos as int));
                assert(views(r@) =~= before.push(rest.take(n)));
                assert(before + (seq![rest.take(n)] + fields(rest.skip(n))) =~= views(r@) + fields(
                    s@.skip(pos as int),
                ));
            }
        }
    }
    assert(s@.skip(pos as int) =~= Seq::<char>::empty());
    assert(views(r@) + Seq::<Seq<char>>::empty() =~= views(r@));
    r
}

/// How many items stand in front of the first `mark`.
pub open spec fn piece_len<T>(s: Seq<T>, mark: T) -> nat
    decreases s.len(),
{
    if s.len() == 0 || s[0] == mark {
        0
    } else {
        1 + piece_len(s.skip(1), mark)
    }
}

/// What stands before, between and after the marks.
pub open spec fn pieces<T>(s: Seq<T>, mark: T) -> Seq<Seq<T>>
    decreases s.len(),
{
    if piece_len(s, mark) < s.len() {
        seq![s.take(piece_len(s, mark) as int)] + pieces(
            s.skip(piece_len(s, mark) as int + 1),
            mark,
        )
    } else {
        seq![s]
    }
}

/// The lines of a text. A carriage return in front of a line feed stays with its line, where it is
/// white space.
pub open spec fn lines(s: Seq<char>) -> Seq<Seq<char>> {
    pieces(s, '\n')
}

/// The line feed as a byte.
pub const LINE_FEED: u8 = 0x0a;

/// The lines of a text that is not decoded yet.
pub open spec fn byte_lines(bytes: Seq<u8>) -> Seq<Seq<u8>> {
    pieces(bytes, LINE_FEED)
}

/// A piece reaches to the first mark, or to the end.
pub proof fn lemma_piece_len<T>(s: Seq<T>, mark: T, n: int)
    requires
        0 <= n <= s.len(),
        forall|j: int| 0 <= j < n ==> #[trigger] s[j] != mark,
        n == s.len() || s[n] == mark,
    ensures
        piece_len(s, mark) == n,
    decreases s.len(),
{
    if n > 0 {
        let t = s.skip(1);
        assert forall|j: int| 0 <= j < n - 1 implies #[trigger] t[j] != mark by {
            assert(t[j] == s[j + 1]);
        }
        lemma_piece_len(t, mark, n - 1);
    }
}

/// A piece holds no mark, and a mark ends it unless it is the last.
pub proof fn lemma_piece<T>(s: Seq<T>, mark: T)
    ensures
        piece_len(s, mark) <= s.len(),
        forall|j: int| 0 <= j < piece_len(s, mark) ==> #[trigger] s[j] != mark,
        piece_len(s, mark) < s.len() ==> s[piece_len(s, mark) as int] == mark,
    decreases s.len(),
{
    if s.len() > 0 && s[0] != mark {
        let t = s.skip(1);
        lemma_piece(t, mark);
        assert forall|j: int| 0 <= j < piece_len(s, mark) implies #[trigger] s[j] != mark by {
            if j > 0 {
                assert(t[j - 1] == s[j]);
            }
        }
    }
}

/// The pieces on both sides of a mark make up the pieces of the whole.
pub proof fn lemma_pieces_split<T>(a: Seq<T>, b: Seq<T>, mark: T)
    ensures
        pieces(a.push(mark) + b, mark) == pieces(a, mark) + pieces(b, mark),
    decreases a.len(),
{
    let s = a.push(mark) + b;
    lemma_piece(a, mark);
    let n = piece_len(a, mark) as int;
    assert forall|j: int| 0 <= j < n implies #[trigger] s[j] != mark by {
        assert(s[j] == a[j]);
    }
    lemma_piece_len(s, mark, n);
    assert(s.take(n) =~= a.take(n));
    if n < a.len() {
        let rest = a.skip(n + 1);
        lemma_pieces_split(rest, b, mark);
        assert(s.skip(n + 1) =~= rest.push(mark) + b);
        assert(seq![a.take(n)] + (pieces(rest, mark) + pieces(b, mark)) =~= (seq![a.take(n)]
            + pieces(rest, mark)) + pieces(b, mark));
    } else {
        assert(a.take(n) =~= a);
        assert(s.skip(n + 1) =~= b);
    }
}

/// Splits a text that is not decoded yet into its lines.
pub fn split_lines(s: &Vec<u8>) -> (r: Vec<Vec<u8>>)
    ensures
        views(r@) == byte_lines(s@),
{
    let mut r: Vec<Vec<u8>> = Vec::new();
    let mut start: usize = 0;
    let mut pos: usize = 0;
    assert(s@.skip(0) =~= s@);
    assert(views(r@) + byte_lines(s@) =~= byte_lines(s@));
    while pos < s.len()
        invariant
            start <= pos <= s.len(),
            forall|j: int| start <= j < pos ==> #[trigger] s@[j] != LINE_FEED,
            byte_lines(s@) == views(r@) + byte_lines(s@.skip(start as int)),
        decreases s.len() - pos,
    {
        if s[pos] == LINE_FEED {
            let ghost rest = s@.skip(start as int);
            let ghost n = pos - start;
            let ghost before = views(r@);
            r.push(slice_of(s, start, pos));
            proof {
                assert forall|j: int| 0 <= j < n implies #[trigger] rest[j] != LINE_FEED by {
                    assert(rest[j] == s@[start + j]);
                }
                lemma_piece_len(rest, LINE_FEED, n);
                assert(rest.take(n) =~= s@.subrange(start as int, pos as int));
                assert(rest.skip(n + 1) =~= s@.skip(pos + 1));
                assert(views(r@) =~= before.push(rest.take(n)));
                assert(before + (seq![rest.take(n)] + byte_lines(rest.skip(n + 1))) =~= views(r@)
                    + byte_lines(s@.skip(pos + 1)));
            }
            start = pos + 1;
        }
        pos = pos + 1;
    }
    let ghost rest = s@.skip(start as int);
    let ghost before = views(r@);
    r.push(slice_of(s, start, pos));
    proof {
        assert forall|j: int| 0 <= j < rest.len() implies #[trigger] rest[j] != LINE_FEED by {
            assert(rest[j] == s@[start + j]);
        }
        lemma_piece_len(rest, LINE_FEED, rest.len() as int);
        assert(rest =~= s@.subrange(start as int, pos as int));
        assert(views(r@) =~= before + seq![rest]);
    }
    r
}

proof fn lemma_no_line_feed(bytes: Seq<u8>)
    requires
        vstd::utf8::valid_utf8(bytes),
        forall|j: int| 0 <= j < bytes.len() ==> #[trigger] bytes[j] != LINE_FEED,
    ensures
        forall|j: int|
            0 <= j < vstd::utf8::decode_utf8(bytes).len() ==> #[trigger] vstd::utf8::decode_utf8(
                bytes,
            )[j] != '\n',
    decreases bytes.len(),
{
    if bytes.len() > 0 {
        let rest = vstd::utf8::pop_first_scalar(bytes);
        assert forall|j: int| 0 <= j < rest.len() implies #[trigger] rest[j] != LINE_FEED by {
            assert(rest[j] == bytes[j + vstd::utf8::length_of_first_scalar(bytes)]);
        }
        lemma_no_line_feed(rest);
        vstd::utf8::decode_utf8_first_scalar(bytes);
        let first = vstd::utf8::take_first_scalar(bytes);
        if vstd::utf8::decode_first_scalar(bytes) as char == '\n' {
            assert((0x0au32 & 0x7f) as u8 == 0x0a) by (bit_vector);
            assert(first =~= seq![LINE_FEED]);
            assert(first[0] == bytes[0]);
        }
        let text = vstd::utf8::decode_utf8(bytes);
        assert forall|j: int| 0 <= j < text.len() implies #[trigger] text[j] != '\n' by {
            if j > 0 {
                assert(text[j] == vstd::utf8::decode_utf8(rest)[j - 1]);
            }
        }
    }
}

/// A text can be decoded line by line: a line feed is a character of its own, and no part of
/// another.
pub proof fn lines_are_decoded_apart(bytes: Seq<u8>)
    requires
        vstd::utf8::valid_utf8(bytes),
    ensures
        forall|k: int|
            0 <= k < byte_lines(bytes).len() ==> vstd::utf8::valid_utf8(
                #[trigger] byte_lines(bytes)[k],
            ),
        lines(vstd::utf8::decode_utf8(bytes)) == byte_lines(bytes).map_values(
            |line: Seq<u8>| vstd::utf8::decode_utf8(line),
        ),
    decreases bytes.len(),
{
    let decode = |line: Seq<u8>| vstd::utf8::decode_utf8(line);
    lemma_piece(bytes, LINE_FEED);
    let n = piece_len(bytes, LINE_FEED) as int;
    let text = vstd::utf8::decode_utf8(bytes);
    if n < bytes.len() {
        let line = bytes.subrange(0, n);
        let tail = bytes.subrange(n, bytes.len() as int);
        let rest = bytes.skip(n + 1);
        vstd::utf8::is_char_boundary_iff_not_is_continuation_byte(bytes, n);
        assert(vstd::utf8::is_char_boundary(bytes, n)) by {
            assert(!vstd::utf8::is_continuation_byte(bytes[n]));
        }
        vstd::utf8::valid_utf8_split(bytes, n);
        vstd::utf8::decode_utf8_split(bytes, n);
        assert(tail[0] == LINE_FEED);
        assert(vstd::utf8::pop_first_scalar(tail) =~= rest);
        assert(0x0au8 & 0x7f == 0x0a) by (bit_vector);
        assert(vstd::utf8::decode_first_scalar(tail) as char == '\n');
        let head = vstd::utf8::decode_utf8(line);
        lemma_no_line_feed(line);
        lines_are_decoded_apart(rest);
        assert(text =~= head.push('\n') + vstd::utf8::decode_utf8(rest));
        lemma_pieces_split(head, vstd::utf8::decode_utf8(rest), '\n');
        lemma_piece_len(head, '\n', head.len() as int);
        assert(lines(head) =~= seq![head]);
        assert(line =~= bytes.take(n));
        let all = byte_lines(bytes);
        assert(all =~= seq![line] + byte_lines(rest));
        assert forall|k: int| 0 <= k < all.len() implies vstd::utf8::valid_utf8(
            #[trigger] all[k],
        ) by {
            if k > 0 {
                assert(all[k] == byte_lines(rest)[k - 1]);
            }
        }
        assert(lines(text) =~= all.map_values(decode));
    } else {
        lemma_no_line_feed(bytes);
        lemma_piece_len(text, '\n', text.len() as int);
        assert(byte_lines(bytes) =~= seq![bytes]);
        assert(lines(text) =~= seq![text]);
        assert(lines(text) =~= byte_lines(bytes).map_values(decode));
    }
}

/// The character of a decimal digit.
pub open spec fn digit(d: nat) -> char {
    (48 + d) as char
}

/// Is `c` one of the ten ASCII digits?
pub open spec fn is_digit(c: char) -> bool {
    '0' <= c <= '9'
}

/// The decimal numeral of `n`, without leading zeros.
pub open spec fn decimal(n: nat) -> Seq<char>
    decreases n,
{
    if n < 10 {
        seq![digit(n)]
    } else {
        decimal(n / 10).push(digit(n % 10))
    }
}

/// The number that a run of digits stands for.
pub open spec fn value(s: Seq<char>) -> nat
    decreases s.len(),
{
    if s.len() == 0 {
        0
    } else {
        10 * value(s.drop_last()) + (s.last() as u32 - 48) as nat
    }
}

/// One digit or more, and nothing else.
pub open spec fn all_digits(s: Seq<char>) -> bool {
    s.len() > 0 && forall|i: int| 0 <= i < s.len() ==> is_digit(#[trigger] s[i])
}

/// What reading `s` as a `u32` gives: a numeral, which one plus sign may precede, that is not too
/// large.
pub open spec fn parsed_u32(s: Seq<char>) -> Option<u32> {
    let d = if s.len() > 0 && s[0] == '+' {
        s.skip(1)
    } else {
        s
    };
    if all_digits(d) && value(d) <= u32::MAX {
        Some(value(d) as u32)
    } else {
        None
    }
}

/// The decimal numeral of `n`.
pub fn decimal_of(n: u32) -> (r: Vec<char>)
    ensures
        r@ == decimal(n as nat),
    decreases n,
{
    let last: char = ((n % 10) as u8 + 48u8) as char;
    let mut r: Vec<char> = if n < 10 {
        Vec::new()
    } else {
        decimal_of(n / 10)
    };
    r.push(last);
    r
}

proof fn lemma_value_prefix(s: Seq<char>, i: int)
    requires
        0 <= i <= s.len(),
        forall|j: int| 0 <= j < s.len() ==> is_digit(#[trigger] s[j]),
    ensures
        value(s.take(i)) <= value(s),
    decreases s.len(),
{
    if i < s.len() {
        lemma_value_prefix(s.drop_last(), i);
        assert(s.drop_last().take(i) =~= s.take(i));
    } else {
        assert(s.take(i) =~= s);
    }
}

/// Reads a `u32`.
pub fn parse_u32(s: &Vec<char>) -> (r: Option<u32>)
    ensures
        r == parsed_u32(s@),
{
    let start: usize = if s.len() > 0 && s[0] == '+' {
        1
    } else {
        0
    };
    let ghost d = s@.skip(start as int);
    assert(s@.skip(0) =~= s@);
    if start == s.len() {
        return None;
    }
    for i in start..s.len()
        invariant
            start <= s.len(),
            d == s@.skip(start as int),
            parsed_u32(s@) is Some ==> all_digits(d),
            forall|j: int| start <= j < i ==> is_digit(#[trigger] s@[j]),
    {
        if !('0' <= s[i] && s[i] <= '9') {
            assert(!is_digit(d[i - start]));
            return None;
        }
    }
    assert forall|j: int| 0 <= j < d.len() implies is_digit(#[trigger] d[j]) by {
        assert(d[j] == s@[start + j]);
    }
    let mut acc: u64 = 0;
    for i in start..s.len()
        invariant
            start <= s.len(),
            d == s@.skip(start as int),
            all_digits(d),
            parsed_u32(s@) == (if value(d) <= u32::MAX {
                Some(value(d) as u32)
            } else {
                None::<u32>
            }),
            acc == value(d.take(i - start)),
            acc <= u32::MAX,
    {
        let ghost k = i - start;
        assert(is_digit(d[k]));
        let c: char = s[i];
        acc = 10 * acc + (c as u32 - 48) as u64;
        proof {
            assert(d.take(k + 1).drop_last() =~= d.take(k));
            lemma_value_prefix(d, k + 1);
        }
        if acc > 0xffff_ffff {
            return None;
        }
    }
    assert(d.take(d.len() as int) =~= d);
    Some(acc as u32)
}

proof fn lemma_decimal_value(n: nat)
    ensures
        all_digits(decimal(n)),
        value(decimal(n)) == n,
    decreases n,
{
    if n < 10 {
        assert(decimal(n).drop_last() =~= Seq::<char>::empty());
        assert(value(Seq::<char>::empty()) == 0);
    } else {
        lemma_decimal_value(n / 10);
        assert(decimal(n).drop_last() =~= decimal(n / 10));
        assert forall|i: int| 0 <= i < decimal(n).len() implies is_digit(#[trigger] decimal(n)[i]) by {
            if i < decimal(n / 10).len() {
                assert(is_digit(decimal(n / 10)[i]));
            }
        }
    }
}

/// Reading the decimal numeral of a `u32` gives that number back.
pub proof fn decimal_reads_back(n: u32)
    ensures
        parsed_u32(decimal(n as nat)) == Some(n),
{
    lemma_decimal_value(n as nat);
    assert(is_digit(decimal(n as nat)[0]));
}

/// Two different numbers have different decimal numerals.
pub proof fn decimal_is_injective(m: nat, n: nat)
    requires
        decimal(m) == decimal(n),
    ensures
        m == n,
{
    lemma_decimal_value(m);
    lemma_decimal_value(n);
}

/// A decimal numeral holds digits only.
pub proof fn decimal_holds_digits(n: nat)
    ensures
        all_digits(decimal(n)),
{
    lemma_decimal_value(n);
}

/// Does `pattern` stand in `s` at position `i`?
pub open spec fn occurs_at(s: Seq<char>, pattern: Seq<char>, i: int) -> bool {
    0 <= i && i + pattern.len() <= s.len() && s.subrange(i, i + pattern.len()) == pattern
}

/// `s` with each occurrence of `pattern` replaced by `with`, from left to right; what has been
/// replaced is not looked at again. The pattern must not be empty.
pub open spec fn replaced(s: Seq<char>, pattern: Seq<char>, with: Seq<char>) -> Seq<char>
    decreases s.len(),
{
    if s.len() == 0 || pattern.len() == 0 {
        s
    } else if occurs_at(s, pattern, 0) {
        with + replaced(s.skip(pattern.len() as int), pattern, with)
    } else {
        seq![s[0]] + replaced(s.skip(1), pattern, with)
    }
}

/// Does `pattern` stand in `s` at position `i`?
fn is_at(s: &Vec<char>, pattern: &Vec<char>, i: usize) -> (r: bool)
    requires
        i <= s.len(),
    ensures
        r == occurs_at(s@, pattern@, i as int),
{
    if pattern.len() > s.len() - i {
        return false;
    }
    let ghost part = s@.subrange(i as int, i + pattern@.len());
    for j in 0..pattern.len()
        invariant
            i + pattern.len() <= s.len(),
            part == s@.subrange(i as int, i + pattern@.len()),
            forall|k: int| 0 <= k < j ==> part[k] == pattern@[k],
    {
        if s[i + j] != pattern[j] {
            assert(part[j as int] != pattern@[j as int]);
            return false;
        }
    }
    assert(part =~= pattern@);
    true
}

/// Replaces each occurrence of `pattern`.
pub fn replace(s: &Vec<char>, pattern: &Vec<char>, with: &Vec<char>) -> (r: Vec<char>)
    requires
        pattern.len() > 0,
    ensures
        r@ == replaced(s@, pattern@, with@),
{
    let mut r: Vec<char> = Vec::new();
    let mut pos: usize = 0;
    assert(s@.skip(0) =~= s@);
    assert(r@ + replaced(s@, pattern@, with@) =~= replaced(s@, pattern@, with@));
    while pos < s.len()
        invariant
            pos <= s.len(),
            pattern.len() > 0,
            replaced(s@, pattern@, with@) == r@ + replaced(s@.skip(pos as int), pattern@, with@),
        decreases s.len() - pos,
    {
        let ghost rest = s@.skip(pos as int);
        let ghost before = r@;
        let ghost m = pattern@.len() as int;
        assert(occurs_at(rest, pattern@, 0) == occurs_at(s@, pattern@, pos as int)) by {
            if m <= rest.len() {
                assert(rest.subrange(0, m) =~= s@.subrange(pos as int, pos + m));
            }
        }
        if is_at(s, pattern, pos) {
            let mut copy = slice_of(with, 0, with.len());
            r.append(&mut copy);
            assert(r@ =~= before + with@);
            assert(rest.skip(m) =~= s@.skip(pos + m));
            assert(before + (with@ + replaced(rest.skip(m), pattern@, with@)) =~= r@ + replaced(
                s@.skip(pos + m),
                pattern@,
                with@,
            ));
            pos = pos + pattern.len();
        } else {
            r.push(s[pos]);
            assert(rest.skip(1) =~= s@.skip(pos + 1));
            assert(before + (seq![rest[0]] + replaced(rest.skip(1), pattern@, with@)) =~= r@
                + replaced(s@.skip(pos + 1), pattern@, with@));
            pos = pos + 1;
        }
    }
    assert(s@.skip(pos as int) =~= Seq::<char>::empty());
    assert(r@ + Seq::<char>::empty() =~= r@);
    r
}

/// A text in which the pattern stands nowhere is left as it is.
pub proof fn replaced_nowhere(s: Seq<char>, pattern: Seq<char>, with: Seq<char>)
    requires
        forall|i: int| !#[trigger] occurs_at(s, pattern, i),
    ensures
        replaced(s, pattern, with) == s,
    decreases s.len(),
{
    if s.len() > 0 && pattern.len() > 0 {
        let t = s.skip(1);
        assert forall|i: int| !#[trigger] occurs_at(t, pattern, i) by {
            if occurs_at(t, pattern, i) {
                assert(s.subrange(i + 1, i + 1 + pattern.len()) =~= t.subrange(
                    i,
                    i + pattern.len(),
                ));
                assert(occurs_at(s, pattern, i + 1));
            }
        }
        replaced_nowhere(t, pattern, with);
        assert(!occurs_at(s, pattern, 0));
        assert(seq![s[0]] + t =~= s);
    }
}

/// Where the pattern stands in one place only, what stands before and behind it is kept.
pub proof fn replaced_once(head: Seq<char>, pattern: Seq<char>, tail: Seq<char>, with: Seq<char>)
    requires
        pattern.len() > 0,
        forall|i: int| #[trigger]
            occurs_at(head + pattern + tail, pattern, i) ==> i == head.len(),
    ensures
        replaced(head + pattern + tail, pattern, with) == head + with + tail,
    decreases head.len(),
{
    let s = head + pattern + tail;
    let m = pattern.len() as int;
    if head.len() == 0 {
        assert(s.subrange(0, m) =~= pattern);
        assert(occurs_at(s, pattern, 0));
        assert(s.skip(m) =~= tail);
        assert forall|i: int| !#[trigger] occurs_at(tail, pattern, i) by {
            if occurs_at(tail, pattern, i) {
                assert(s.subrange(i + m, i + m + m) =~= tail.subrange(i, i + m));
                assert(occurs_at(s, pattern, i + m));
            }
        }
        replaced_nowhere(tail, pattern, with);
        assert(with + tail =~= head + with + tail);
    } else {
        let h = head.skip(1);
        let t = h + pattern + tail;
        assert(s.skip(1) =~= t);
        assert forall|i: int| #[trigger] occurs_at(t, pattern, i) implies i == h.len() by {
            assert(s.subrange(i + 1, i + 1 + m) =~= t.subrange(i, i + m));
            assert(occurs_at(s, pattern, i + 1));
        }
        replaced_once(h, pattern, tail, with);
        assert(!occurs_at(s, pattern, 0));
        assert(seq![s[0]] + (h + with + tail) =~= head + with + tail);
    }
}

/// Replacing a single character can be done piece by piece.
pub proof fn replaced_char_concat(a: Seq<char>, b: Seq<char>, c: char, with: Seq<char>)
    ensures
        replaced(a + b, seq![c], with) == replaced(a, seq![c], with) + replaced(b, seq![c], with),
    decreases a.len(),
{
    let p = seq![c];
    let s = a + b;
    if a.len() == 0 {
        assert(s =~= b);
        assert(replaced(a, p, with) + replaced(b, p, with) =~= replaced(b, p, with));
    } else {
        let t = a.skip(1);
        replaced_char_concat(t, b, c, with);
        assert(s.skip(1) =~= t + b);
        assert(s.subrange(0, 1) =~= seq![s[0]]);
        assert(a.subrange(0, 1) =~= seq![s[0]]);
        assert(occurs_at(s, p, 0) == occurs_at(a, p, 0));
        assert(replaced(s, p, with) =~= replaced(a, p, with) + replaced(b, p, with));
    }
}

/// Replacing a character in a text of one character.
pub proof fn replaced_in_char(x: char, c: char, with: Seq<char>)
    ensures
        replaced(seq![x], seq![c], with) == (if x == c {
            with
        } else {
            seq![x]
        }),
{
    let s = seq![x];
    let p = seq![c];
    assert(s.skip(1) =~= Seq::<char>::empty());
    assert(s.subrange(0, 1) =~= s);
    if x != c {
        assert(s[0] != p[0]);
    }
    assert(replaced(Seq::<char>::empty(), p, with) =~= Seq::<char>::empty());
    assert(with + Seq::<char>::empty() =~= with);
    assert(s + Seq::<char>::empty() =~= s);
}

/// A word, which is not empty and holds no white space, is its own only field; a text of nothing has
/// none.
pub proof fn word_is_its_own_field(word: Seq<char>)
    requires
        forall|i: int| 0 <= i < word.len() ==> !white_space(#[trigger] word[i]),
    ensures
        word.len() > 0 ==> fields(word) == seq![word],
        word.len() == 0 ==> fields(word) == Seq::<Seq<char>>::empty(),
{
    if word.len() > 0 {
        let n = word.len() as int;
        lemma_field_len(word, n);
        assert(!white_space(word[0]));
        assert(word.take(n) =~= word);
        assert(word.skip(n) =~= Seq::<char>::empty());
        assert(fields(Seq::<char>::empty()) =~= Seq::<Seq<char>>::empty());
        assert(seq![word] + Seq::<Seq<char>>::empty() =~= seq![word]);
    }
}

proof fn lemma_field_len_split(a: Seq<char>, c: char, b: Seq<char>)
    requires
        white_space(c),
    ensures
        field_len(a.push(c) + b) == field_len(a),
    decreases a.len(),
{
    let s = a.push(c) + b;
    if a.len() > 0 {
        lemma_field_len_split(a.skip(1), c, b);
        assert(s.skip(1) =~= a.skip(1).push(c) + b);
        assert(s[0] == a[0]);
    } else {
        assert(s[0] == c);
    }
}

/// White space parts fields: those of a text are those on its one side, and then those on its other.
pub proof fn fields_add_up(a: Seq<char>, c: char, b: Seq<char>)
    requires
        white_space(c),
    ensures
        fields(a.push(c) + b) == fields(a) + fields(b),
    decreases a.len(),
{
    let s = a.push(c) + b;
    if a.len() == 0 {
        assert(s[0] == c);
        assert(s.skip(1) =~= b);
        assert(fields(a) + fields(b) =~= fields(b));
    } else if white_space(a[0]) {
        fields_add_up(a.skip(1), c, b);
        assert(s[0] == a[0]);
        assert(s.skip(1) =~= a.skip(1).push(c) + b);
    } else {
        let n = field_len(a) as int;
        lemma_field_len_bound(a);
        lemma_field_len_split(a, c, b);
        fields_add_up(a.skip(n), c, b);
        assert(s[0] == a[0]);
        assert(s.take(n) =~= a.take(n));
        assert(s.skip(n) =~= a.skip(n).push(c) + b);
        assert(seq![a.take(n)] + (fields(a.skip(n)) + fields(b)) =~= (seq![a.take(n)] + fields(
            a.skip(n),
        )) + fields(b));
    }
}

/// A text is blank if and only if it has no field.
pub proof fn blank_text_has_no_field(s: Seq<char>)
    ensures
        blank(s) <==> fields(s).len() == 0,
    decreases s.len(),
{
    if s.len() > 0 && white_space(s[0]) {
        let t = s.skip(1);
        blank_text_has_no_field(t);
        if blank(t) {
            assert forall|i: int| 0 <= i < s.len() implies white_space(#[trigger] s[i]) by {
                if i > 0 {
                    assert(s[i] == t[i - 1]);
                }
            }
        }
        if blank(s) {
            assert forall|i: int| 0 <= i < t.len() implies white_space(#[trigger] t[i]) by {
                assert(t[i] == s[i + 1]);
            }
        }
    }
}

/// What holds no mark is one piece.
pub proof fn unmarked_is_one_piece<T>(s: Seq<T>, mark: T)
    requires
        !s.contains(mark),
    ensures
        pieces(s, mark) == seq![s],
{
    assert forall|j: int| 0 <= j < s.len() implies #[trigger] s[j] != mark by {
        assert(s.contains(s[j]));
    }
    lemma_piece_len(s, mark, s.len() as int);
}

/// The numeral of a number below ten is one digit, counted from `0`; that of a larger number is the
/// numeral of its tens and then its last digit. So there are no leading zeros.
pub proof fn decimal_goes_digit_by_digit(tens: nat, ones: nat)
    requires
        ones < 10,
    ensures
        decimal(ones).len() == 1,
        decimal(ones)[0] as u32 == '0' as u32 + ones,
        tens > 0 ==> decimal(10 * tens + ones) == decimal(tens) + decimal(ones),
{
    if tens > 0 {
        let n = 10 * tens + ones;
        assert(n / 10 == tens && n % 10 == ones);
        assert(decimal(tens).push(digit(ones)) =~= decimal(tens) + decimal(ones));
    }
}

/// So many zeros.
pub open spec fn zeros(count: nat) -> Seq<char> {
    Seq::new(count, |i: int| '0')
}

/// A plus sign or none, so many zeros, and the numeral.
pub open spec fn spelled(signed: bool, count: nat, n: nat) -> Seq<char> {
    if signed {
        seq!['+'] + (zeros(count) + decimal(n))
    } else {
        zeros(count) + decimal(n)
    }
}

proof fn lemma_zeros_value(count: nat, n: nat)
    ensures
        all_digits(zeros(count) + decimal(n)),
        value(zeros(count) + decimal(n)) == n,
    decreases n,
{
    lemma_decimal_value(n);
    let s = zeros(count) + decimal(n);
    assert forall|i: int| 0 <= i < s.len() implies is_digit(#[trigger] s[i]) by {
        if i >= count {
            assert(is_digit(decimal(n)[i - count]));
        }
    }
    if n < 10 {
        assert(s.drop_last() =~= zeros(count));
        lemma_zeros_are_nothing(count);
        assert(s.last() == digit(n));
    } else {
        lemma_zeros_value(count, n / 10);
        assert(s.drop_last() =~= zeros(count) + decimal(n / 10));
        assert(s.last() == digit(n % 10));
    }
}

proof fn lemma_zeros_are_nothing(count: nat)
    ensures
        value(zeros(count)) == 0,
    decreases count,
{
    if count > 0 {
        lemma_zeros_are_nothing((count - 1) as nat);
        assert(zeros(count).drop_last() =~= zeros((count - 1) as nat));
    }
}

proof fn lemma_digits_are_spelled(s: Seq<char>) -> (count: nat)
    requires
        all_digits(s),
    ensures
        s == zeros(count) + decimal(value(s)),
    decreases s.len(),
{
    let init = s.drop_last();
    let c = s.last();
    assert(is_digit(s[s.len() - 1]));
    let ones = (c as u32 - 48) as nat;
    assert(digit(ones) == c);
    if s.len() == 1 {
        assert(value(init) == 0);
        assert(s =~= zeros(0) + decimal(value(s)));
        0
    } else {
        assert forall|i: int| 0 <= i < init.len() implies is_digit(#[trigger] init[i]) by {
            assert(init[i] == s[i]);
        }
        let count = lemma_digits_are_spelled(init);
        let tens = value(init);
        assert(s =~= init.push(c));
        assert(decimal(ones) =~= seq![c]);
        if tens > 0 {
            decimal_goes_digit_by_digit(tens, ones);
            assert(s =~= zeros(count) + decimal(value(s)));
            count
        } else {
            assert(decimal(0) =~= seq!['0']);
            assert(init =~= zeros(count + 1));
            assert(s =~= zeros(count + 1) + decimal(value(s)));
            count + 1
        }
    }
}

/// A text reads as a number if and only if it is the numeral of that number, with zeros or none in
/// front of it and a plus sign or none in front of these.
pub proof fn number_is_read_iff_spelled(s: Seq<char>, n: u32)
    ensures
        parsed_u32(s) == Some(n) <==> exists|signed: bool, count: nat|
            s == #[trigger] spelled(signed, count, n as nat),
{
    if parsed_u32(s) == Some(n) {
        let signed = s.len() > 0 && s[0] == '+';
        let d = if signed {
            s.skip(1)
        } else {
            s
        };
        let count = lemma_digits_are_spelled(d);
        if signed {
            assert(s =~= seq!['+'] + d);
        }
        assert(s == spelled(signed, count, n as nat));
    }
    if exists|signed: bool, count: nat| s == #[trigger] spelled(signed, count, n as nat) {
        let (signed, count) = choose|signed: bool, count: nat|
            s == #[trigger] spelled(signed, count, n as nat);
        lemma_zeros_value(count, n as nat);
        let d = zeros(count) + decimal(n as nat);
        if signed {
            assert(s.skip(1) =~= d);
        } else {
            assert(is_digit(d[0]));
        }
    }
}

/// A pattern stands at a position if and only if it parts the text into what stands before it, so
/// many characters, and what stands behind it.
pub proof fn occurrence_parts_the_text(s: Seq<char>, pattern: Seq<char>, i: nat)
    ensures
        occurs_at(s, pattern, i as int) <==> exists|head: Seq<char>, tail: Seq<char>|
            head.len() == i && s == #[trigger] ((head + pattern) + tail),
{
    let m = pattern.len() as int;
    if occurs_at(s, pattern, i as int) {
        let head = s.take(i as int);
        let tail = s.skip(i + m);
        assert forall|k: int| 0 <= k < s.len() implies #[trigger] s[k] == ((head + pattern)
            + tail)[k] by {
            if i <= k < i + m {
                assert(s.subrange(i as int, i + m)[k - i] == s[k]);
            }
        }
        assert(s =~= (head + pattern) + tail);
    }
    if exists|head: Seq<char>, tail: Seq<char>|
        head.len() == i && s == #[trigger] ((head + pattern) + tail) {
        let (head, tail) = choose|head: Seq<char>, tail: Seq<char>|
            head.len() == i && s == #[trigger] ((head + pattern) + tail);
        assert(s.subrange(i as int, i + m) =~= pattern);
    }
}

/// The first occurrence is replaced, what stands before it is kept, and what stands behind it is
/// gone through in the same way.
pub proof fn replaced_from_the_first_on(
    head: Seq<char>,
    pattern: Seq<char>,
    tail: Seq<char>,
    with: Seq<char>,
)
    requires
        pattern.len() > 0,
        forall|i: int| #[trigger]
            occurs_at(head + pattern + tail, pattern, i) ==> i >= head.len(),
    ensures
        replaced(head + pattern + tail, pattern, with) == head + with + replaced(
            tail,
            pattern,
            with,
        ),
    decreases head.len(),
{
    let s = head + pattern + tail;
    let m = pattern.len() as int;
    if head.len() == 0 {
        assert(s.subrange(0, m) =~= pattern);
        assert(occurs_at(s, pattern, 0));
        assert(s.skip(m) =~= tail);
        assert(with + replaced(tail, pattern, with) =~= head + with + replaced(tail, pattern, with));
    } else {
        let h = head.skip(1);
        let t = h + pattern + tail;
        assert(s.skip(1) =~= t);
        assert forall|i: int| #[trigger] occurs_at(t, pattern, i) implies i >= h.len() by {
            assert(s.subrange(i + 1, i + 1 + m) =~= t.subrange(i, i + m));
            assert(occurs_at(s, pattern, i + 1));
        }
        replaced_from_the_first_on(h, pattern, tail, with);
        assert(!occurs_at(s, pattern, 0));
        assert(seq![s[0]] + (h + with + replaced(tail, pattern, with)) =~= head + with + replaced(
            tail,
            pattern,
            with,
        ));
    }
}

} // verus!
