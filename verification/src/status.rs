//! The status page that is shown until the service is up.
use vstd::prelude::*;

use crate::text;
use crate::text::{chars_of, replace, string_of};

verus! {

/// Where the template of the status page takes the indicator.
pub const INDICATOR_SLOT: &'static str = "__INDICATOR__";

/// Where the template of the status page takes the message.
pub const STATUS_SLOT: &'static str = "__STATUS__";

/// What stands for a character in HTML text.
pub open spec fn escaped_char(c: char) -> Seq<char> {
    if c == '&' {
        "&amp;"@
    } else if c == '<' {
        "&lt;"@
    } else if c == '>' {
        "&gt;"@
    } else {
        seq![c]
    }
}

/// What stands for a text in HTML text: each character for itself.
pub open spec fn escaped(s: Seq<char>) -> Seq<char>
    decreases s.len(),
{
    if s.len() == 0 {
        seq![]
    } else {
        escaped(s.drop_last()) + escaped_char(s.last())
    }
}

/// Escapes a text for HTML.
pub fn escape(s: &str) -> (r: Vec<char>)
    ensures
        r@ == escaped(s@),
{
    let v = chars_of(s);
    let mut r: Vec<char> = Vec::new();
    for i in 0..v.len()
        invariant
            v@ == s@,
            r@ == escaped(v@.take(i as int)),
    {
        assert(v@.take(i + 1).drop_last() =~= v@.take(i as int));
        let c = v[i];
        if c == '&' {
            let mut entity = chars_of("&amp;");
            r.append(&mut entity);
        } else if c == '<' {
            let mut entity = chars_of("&lt;");
            r.append(&mut entity);
        } else if c == '>' {
            let mut entity = chars_of("&gt;");
            r.append(&mut entity);
        } else {
            r.push(c);
        }
    }
    assert(v@.take(v@.len() as int) =~= v@);
    r
}

/// The status page: the template with the indicator in its place, and then the escaped message in
/// its place.
pub open spec fn page(template: Seq<char>, indicator: Seq<char>, status: Seq<char>) -> Seq<char> {
    text::replaced(
        text::replaced(template, INDICATOR_SLOT@, indicator),
        STATUS_SLOT@,
        escaped(status),
    )
}

/// Builds the whale status page with a spinner (starting) or a red dot + text.
pub fn status_page(template: &str, indicator: &str, status: &str) -> (r: String)
    ensures
        r@ == page(template@, indicator@, status@),
{
    proof {
        reveal_strlit("__INDICATOR__");
        reveal_strlit("__STATUS__");
    }
    let with_indicator = replace(
        &chars_of(template),
        &chars_of(INDICATOR_SLOT),
        &chars_of(indicator),
    );
    string_of(&replace(&with_indicator, &chars_of(STATUS_SLOT), &escape(status)))
}

/// The text that HTML text with these entities shows.
pub open spec fn shown(html: Seq<char>) -> Seq<char>
    decreases html.len(),
{
    if html.len() == 0 {
        seq![]
    } else if text::occurs_at(html, seq!['&', 'a', 'm', 'p', ';'], 0) {
        seq!['&'] + shown(html.skip(5))
    } else if text::occurs_at(html, seq!['&', 'l', 't', ';'], 0) {
        seq!['<'] + shown(html.skip(4))
    } else if text::occurs_at(html, seq!['&', 'g', 't', ';'], 0) {
        seq!['>'] + shown(html.skip(4))
    } else {
        seq![html[0]] + shown(html.skip(1))
    }
}

proof fn lemma_entities()
    ensures
        "&amp;"@ == seq!['&', 'a', 'm', 'p', ';'],
        "&lt;"@ == seq!['&', 'l', 't', ';'],
        "&gt;"@ == seq!['&', 'g', 't', ';'],
{
    reveal_strlit("&amp;");
    reveal_strlit("&lt;");
    reveal_strlit("&gt;");
    assert("&amp;"@ =~= seq!['&', 'a', 'm', 'p', ';']);
    assert("&lt;"@ =~= seq!['&', 'l', 't', ';']);
    assert("&gt;"@ =~= seq!['&', 'g', 't', ';']);
}

proof fn lemma_escaped_front(s: Seq<char>)
    requires
        s.len() > 0,
    ensures
        escaped(s) == escaped_char(s[0]) + escaped(s.skip(1)),
    decreases s.len(),
{
    if s.len() == 1 {
        assert(s.drop_last() =~= Seq::<char>::empty());
        assert(s.skip(1) =~= Seq::<char>::empty());
        assert(escaped(s) =~= escaped_char(s[0]) + escaped(s.skip(1)));
    } else {
        lemma_escaped_front(s.drop_last());
        assert(s.drop_last().skip(1) =~= s.skip(1).drop_last());
        assert(escaped(s) =~= escaped_char(s[0]) + escaped(s.skip(1)));
    }
}

proof fn lemma_shown_front(c: char, rest: Seq<char>)
    ensures
        shown(escaped_char(c) + rest) == seq![c] + shown(rest),
{
    lemma_entities();
    let e = escaped_char(c);
    let h = e + rest;
    assert(h.skip(e.len() as int) =~= rest);
    assert(h.subrange(0, e.len() as int) =~= e);
    let amp = seq!['&', 'a', 'm', 'p', ';'];
    let lt = seq!['&', 'l', 't', ';'];
    if c == '<' || c == '>' {
        if text::occurs_at(h, amp, 0) {
            assert(h.subrange(0, 5)[1] == amp[1]);
            assert(h[1] == e[1]);
        }
        if c == '>' && text::occurs_at(h, lt, 0) {
            assert(h.subrange(0, 4)[1] == lt[1]);
            assert(h[1] == e[1]);
        }
    } else if c != '&' {
        assert(h[0] == c);
        assert forall|p: Seq<char>| p.len() > 0 && p[0] == '&' implies !#[trigger] text::occurs_at(
            h,
            p,
            0,
        ) by {
            if text::occurs_at(h, p, 0) {
                assert(h.subrange(0, p.len() as int)[0] == p[0]);
            }
        }
    }
}

/// The escaped message shows as the message itself, whatever it holds.
pub proof fn escaped_shows_as_itself(s: Seq<char>)
    ensures
        shown(escaped(s)) == s,
    decreases s.len(),
{
    if s.len() > 0 {
        lemma_escaped_front(s);
        lemma_shown_front(s[0], escaped(s.skip(1)));
        escaped_shows_as_itself(s.skip(1));
        assert(seq![s[0]] + s.skip(1) =~= s);
    }
}

/// The escaped message opens and closes no tag.
pub proof fn escaped_holds_no_markup(s: Seq<char>)
    ensures
        !escaped(s).contains('<'),
        !escaped(s).contains('>'),
    decreases s.len(),
{
    if s.len() > 0 {
        lemma_entities();
        escaped_holds_no_markup(s.drop_last());
        let init = escaped(s.drop_last());
        let e = escaped_char(s.last());
        assert forall|i: int| 0 <= i < escaped(s).len() implies #[trigger] escaped(s)[i] != '<'
            && escaped(s)[i] != '>' by {
            if i < init.len() {
                assert(init.contains(init[i]));
            } else {
                assert(escaped(s)[i] == e[i - init.len()]);
            }
        }
    }
}

/// A message without ampersands and angle brackets is left as it is.
pub proof fn plain_text_is_kept(s: Seq<char>)
    requires
        !s.contains('&'),
        !s.contains('<'),
        !s.contains('>'),
    ensures
        escaped(s) == s,
    decreases s.len(),
{
    if s.len() > 0 {
        let init = s.drop_last();
        assert forall|c: char| init.contains(c) implies s.contains(c) by {
            let i = choose|i: int| 0 <= i < init.len() && init[i] == c;
            assert(s[i] == c);
        }
        plain_text_is_kept(init);
        assert(s.contains(s[s.len() - 1]));
        assert(init + seq![s.last()] =~= s);
    }
}

/// Escaping is replacing ampersands first, and angle brackets then.
pub proof fn escaping_is_three_replacements(s: Seq<char>)
    ensures
        escaped(s) == text::replaced(
            text::replaced(text::replaced(s, seq!['&'], "&amp;"@), seq!['<'], "&lt;"@),
            seq!['>'],
            "&gt;"@,
        ),
    decreases s.len(),
{
    lemma_entities();
    if s.len() > 0 {
        let init = s.drop_last();
        let x = s.last();
        escaping_is_three_replacements(init);
        assert(s =~= init + seq![x]);
        let a1 = text::replaced(init, seq!['&'], "&amp;"@);
        let b1 = text::replaced(seq![x], seq!['&'], "&amp;"@);
        let a2 = text::replaced(a1, seq!['<'], "&lt;"@);
        let b2 = text::replaced(b1, seq!['<'], "&lt;"@);
        text::replaced_char_concat(init, seq![x], '&', "&amp;"@);
        text::replaced_char_concat(a1, b1, '<', "&lt;"@);
        text::replaced_char_concat(a2, b2, '>', "&gt;"@);
        text::replaced_in_char(x, '&', "&amp;"@);
        if x == '&' {
            lemma_untouched("&amp;"@, '<', "&lt;"@);
            lemma_untouched("&amp;"@, '>', "&gt;"@);
        } else {
            text::replaced_in_char(x, '<', "&lt;"@);
            if x == '<' {
                lemma_untouched("&lt;"@, '>', "&gt;"@);
            } else {
                text::replaced_in_char(x, '>', "&gt;"@);
            }
        }
    }
}

proof fn lemma_untouched(s: Seq<char>, c: char, with: Seq<char>)
    requires
        forall|i: int| 0 <= i < s.len() ==> #[trigger] s[i] != c,
    ensures
        text::replaced(s, seq![c], with) == s,
{
    assert forall|i: int| !#[trigger] text::occurs_at(s, seq![c], i) by {
        if text::occurs_at(s, seq![c], i) {
            assert(s.subrange(i, i + 1)[0] == s[i]);
        }
    }
    text::replaced_nowhere(s, seq![c], with);
}

/// A template with one slot for the indicator and, behind it, one for the message gives a page with
/// the two in their places and everything else as it was.
pub proof fn page_fills_its_slots(
    head: Seq<char>,
    middle: Seq<char>,
    tail: Seq<char>,
    indicator: Seq<char>,
    status: Seq<char>,
)
    requires
        forall|i: int| #[trigger]
            text::occurs_at(
                head + INDICATOR_SLOT@ + (middle + STATUS_SLOT@ + tail),
                INDICATOR_SLOT@,
                i,
            ) ==> i == head.len(),
        forall|i: int| #[trigger]
            text::occurs_at((head + indicator + middle) + STATUS_SLOT@ + tail, STATUS_SLOT@, i)
                ==> i == (head + indicator + middle).len(),
    ensures
        page(head + INDICATOR_SLOT@ + (middle + STATUS_SLOT@ + tail), indicator, status) == (head
            + indicator + middle) + escaped(status) + tail,
{
    reveal_strlit("__INDICATOR__");
    reveal_strlit("__STATUS__");
    text::replaced_once(head, INDICATOR_SLOT@, middle + STATUS_SLOT@ + tail, indicator);
    let filled = head + indicator + (middle + STATUS_SLOT@ + tail);
    assert(filled =~= (head + indicator + middle) + STATUS_SLOT@ + tail);
    text::replaced_once(head + indicator + middle, STATUS_SLOT@, tail, escaped(status));
}

/// A page is made by replacements: the slot of the indicator by the indicator, and then the slot of
/// the message by the message, in which ampersands were replaced first, and angle brackets then.
pub proof fn page_is_made_by_replacements(
    template: Seq<char>,
    indicator: Seq<char>,
    status: Seq<char>,
)
    ensures
        page(template, indicator, status) == text::replaced(
            text::replaced(template, "__INDICATOR__"@, indicator),
            "__STATUS__"@,
            text::replaced(
                text::replaced(text::replaced(status, seq!['&'], "&amp;"@), seq!['<'], "&lt;"@),
                seq!['>'],
                "&gt;"@,
            ),
        ),
{
    escaping_is_three_replacements(status);
}

/// What is escaped piece by piece is escaped as a whole.
pub proof fn escaped_pieces_add_up(a: Seq<char>, b: Seq<char>)
    ensures
        escaped(a + b) == escaped(a) + escaped(b),
    decreases b.len(),
{
    if b.len() == 0 {
        assert(a + b =~= a);
        assert(escaped(a) + escaped(b) =~= escaped(a));
    } else {
        escaped_pieces_add_up(a, b.drop_last());
        assert((a + b).drop_last() =~= a + b.drop_last());
        assert(escaped(a + b) =~= escaped(a) + escaped(b));
    }
}

} // verus!
