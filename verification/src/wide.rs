//! Text as the Windows API takes it: UTF-16, with a NUL at the end.
use vstd::prelude::*;

use crate::text::chars_of;

verus! {

/// The UTF-16 code units of a character: itself, or a pair of surrogates.
pub open spec fn units(c: char) -> Seq<u16> {
    let n = c as int;
    if n < 0x1_0000 {
        seq![n as u16]
    } else {
        seq![(0xd800 + (n - 0x1_0000) / 0x400) as u16, (0xdc00 + (n - 0x1_0000) % 0x400) as u16]
    }
}

/// The UTF-16 code units of a text.
pub open spec fn utf16(s: Seq<char>) -> Seq<u16>
    decreases s.len(),
{
    if s.len() == 0 {
        seq![]
    } else {
        utf16(s.drop_last()) + units(s.last())
    }
}

proof fn lemma_char_range(c: char)
    ensures
        0 <= c as int <= 0x10_ffff,
        !(0xd800 <= c as int <= 0xdfff),
        c as u32 == c as int,
{
}

/// The text in UTF-16, with a NUL at the end.
pub fn to_wide(s: &str) -> (r: Vec<u16>)
    ensures
        r@ == utf16(s@).push(0),
{
    let v = chars_of(s);
    let mut r: Vec<u16> = Vec::new();
    for i in 0..v.len()
        invariant
            v@ == s@,
            r@ == utf16(v@.take(i as int)),
    {
        assert(v@.take(i + 1).drop_last() =~= v@.take(i as int));
        proof {
            lemma_char_range(v@[i as int]);
        }
        let n: u32 = v[i] as u32;
        if n < 0x1_0000 {
            r.push(n as u16);
        } else {
            let high: u32 = 0xd800 + (n - 0x1_0000) / 0x400;
            let low: u32 = 0xdc00 + (n - 0x1_0000) % 0x400;
            r.push(high as u16);
            r.push(low as u16);
        }
        assert(r@ =~= utf16(v@.take(i + 1)));
    }
    assert(v@.take(v@.len() as int) =~= v@);
    r.push(0);
    r
}

/// The text that UTF-16 code units stand for: a high surrogate is read together with the unit
/// behind it.
pub open spec fn text_of(u: Seq<u16>) -> Seq<char>
    decreases u.len(),
{
    if u.len() == 0 {
        seq![]
    } else if u.len() >= 2 && 0xd800 <= u[0] <= 0xdbff {
        seq![(0x1_0000 + (u[0] - 0xd800) * 0x400 + (u[1] - 0xdc00)) as char] + text_of(u.skip(2))
    } else {
        seq![(u[0] as int) as char] + text_of(u.skip(1))
    }
}

proof fn lemma_utf16_front(s: Seq<char>)
    requires
        s.len() > 0,
    ensures
        utf16(s) == units(s[0]) + utf16(s.skip(1)),
    decreases s.len(),
{
    if s.len() == 1 {
        assert(s.drop_last() =~= Seq::<char>::empty());
        assert(s.skip(1) =~= Seq::<char>::empty());
    } else {
        lemma_utf16_front(s.drop_last());
        assert(s.drop_last().skip(1) =~= s.skip(1).drop_last());
    }
    assert(utf16(s) =~= units(s[0]) + utf16(s.skip(1)));
}

/// The UTF-16 code units of a text stand for that text.
pub proof fn utf16_reads_back(s: Seq<char>)
    ensures
        text_of(utf16(s)) == s,
    decreases s.len(),
{
    if s.len() > 0 {
        lemma_utf16_front(s);
        utf16_reads_back(s.skip(1));
        lemma_char_range(s[0]);
        let u = units(s[0]);
        let rest = utf16(s.skip(1));
        assert((u + rest).skip(u.len() as int) =~= rest);
        assert(text_of(u + rest) =~= seq![s[0]] + text_of(rest));
        assert(seq![s[0]] + s.skip(1) =~= s);
    }
}

/// A text without NUL characters is not cut short by the one at its end: there is none before.
pub proof fn only_the_last_unit_is_nul(s: Seq<char>, i: int)
    requires
        !s.contains('\0'),
        0 <= i < utf16(s).len(),
    ensures
        utf16(s)[i] != 0,
    decreases s.len(),
{
    let init = s.drop_last();
    assert forall|c: char| init.contains(c) implies s.contains(c) by {
        let j = choose|j: int| 0 <= j < init.len() && init[j] == c;
        assert(s[j] == c);
    }
    if i < utf16(init).len() {
        only_the_last_unit_is_nul(init, i);
    } else {
        lemma_char_range(s.last());
        assert(s.contains(s[s.len() - 1]));
        assert(utf16(s)[i] == units(s.last())[i - utf16(init).len()]);
    }
}

/// A character of the basic plane is one unit, of its own number; any other is a pair of a high and a
/// low surrogate, which hold ten bits each of what its number exceeds that plane by.
pub proof fn character_is_a_unit_or_a_pair(c: char)
    ensures
        c as int <= 0xffff ==> utf16(seq![c]).len() == 1 && utf16(seq![c])[0] as int == c as int,
        c as int > 0xffff ==> {
            &&& utf16(seq![c]).len() == 2
            &&& 0xd800 <= utf16(seq![c])[0] <= 0xdbff
            &&& 0xdc00 <= utf16(seq![c])[1] <= 0xdfff
            &&& 0x400 * (utf16(seq![c])[0] - 0xd800) + (utf16(seq![c])[1] - 0xdc00) == c as int
                - 0x1_0000
        },
{
    lemma_char_range(c);
    let s = seq![c];
    assert(s.drop_last() =~= Seq::<char>::empty());
    assert(utf16(Seq::<char>::empty()) =~= Seq::<u16>::empty());
    assert(utf16(s) =~= units(c));
}

/// The code units of a text are those of its parts, one after the other.
pub proof fn utf16_adds_up(a: Seq<char>, b: Seq<char>)
    ensures
        utf16(a + b) == utf16(a) + utf16(b),
    decreases b.len(),
{
    if b.len() == 0 {
        assert(a + b =~= a);
        assert(utf16(a) + utf16(b) =~= utf16(a));
    } else {
        utf16_adds_up(a, b.drop_last());
        assert((a + b).drop_last() =~= a + b.drop_last());
        assert(utf16(a + b) =~= utf16(a) + utf16(b));
    }
}

} // verus!
