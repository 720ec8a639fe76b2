//! What canonical forms keep of a text: its words and its punctuation.
use crate::compat::canonical::{
    after_body, after_comma, after_run, after_spaces, before, canonical, closed, counted, in_field,
    inside, is_punctuation, is_space, lemma_space_length, normalized, opened, owed, space_length,
    stripped, tightened, trimmed, unified, Bodies, Place,
};
use crate::compat::canonical_laws::all_space;
use crate::compat::text::white_space;
use vstd::prelude::*;

verus! {

/// A character between two tokens: whitespace or a comma.
pub open spec fn is_gap(c: char) -> bool {
    white_space(c) || c == ','
}

/// A character that is a token of its own: a brace, a parenthesis, a colon or an angle bracket.
pub open spec fn is_mark(c: char) -> bool {
    c == '{' || c == '}' || c == '(' || c == ')' || c == ':' || c == '<' || c == '>'
}

/// The tokens so far, and the word that is not at its end yet.
pub struct Scan {
    pub tokens: Seq<Seq<char>>,
    pub word: Seq<char>,
}

/// The tokens, with the word at its end.
pub open spec fn finished(scan: Scan) -> Seq<Seq<char>> {
    if scan.word.len() == 0 {
        scan.tokens
    } else {
        scan.tokens.push(scan.word)
    }
}

/// The scan after one more character: a gap ends a word, punctuation is a token of its own, and
/// everything else belongs to a word.
pub open spec fn advanced(scan: Scan, c: char) -> Scan {
    if is_gap(c) {
        Scan { tokens: finished(scan), word: seq![] }
    } else if is_mark(c) {
        Scan { tokens: finished(scan).push(seq![c]), word: seq![] }
    } else {
        Scan { tokens: scan.tokens, word: scan.word.push(c) }
    }
}

pub open spec fn scanned(scan: Scan, s: Seq<char>) -> Scan
    decreases s.len(),
{
    if s.len() == 0 {
        scan
    } else {
        scanned(advanced(scan, s[0]), s.drop_first())
    }
}

/// The tokens of a text: its words and its punctuation, in their order. Whitespace and commas
/// only separate them.
pub open spec fn tokens(s: Seq<char>) -> Seq<Seq<char>> {
    finished(scanned(Scan { tokens: seq![], word: seq![] }, s))
}

proof fn lemma_scanned_concat(scan: Scan, a: Seq<char>, b: Seq<char>)
    ensures
        scanned(scan, a + b) == scanned(scanned(scan, a), b),
    decreases a.len(),
{
    if a.len() == 0 {
        assert(a + b =~= b);
    } else {
        assert((a + b).drop_first() =~= a.drop_first() + b);
        lemma_scanned_concat(advanced(scan, a[0]), a.drop_first(), b);
    }
}

proof fn lemma_scanned_one(scan: Scan, c: char)
    ensures
        scanned(scan, seq![c]) == advanced(scan, c),
{
    assert(seq![c].drop_first() =~= seq![]);
    reveal_with_fuel(scanned, 2);
}

proof fn lemma_scanned_push(scan: Scan, s: Seq<char>, c: char)
    ensures
        scanned(scan, s.push(c)) == advanced(scanned(scan, s), c),
{
    assert(s.push(c) =~= s + seq![c]);
    lemma_scanned_concat(scan, s, seq![c]);
    lemma_scanned_one(scanned(scan, s), c);
}

/// Several spaces are a gap like one.
proof fn lemma_spaces_are_one_gap(scan: Scan, w: Seq<char>)
    requires
        w.len() > 0,
        all_space(w),
    ensures
        scanned(scan, w) == advanced(scan, ' '),
    decreases w.len(),
{
    let rest = w.drop_first();
    assert(is_space(w[0]));
    let next = advanced(scan, w[0]);
    assert(next == advanced(scan, ' '));
    if rest.len() > 0 {
        assert(all_space(rest)) by {
            assert forall|i: int| 0 <= i < rest.len() implies is_space(#[trigger] rest[i]) by {
                assert(rest[i] == w[i + 1]);
            }
        }
        lemma_spaces_are_one_gap(next, rest);
        assert(advanced(next, ' ') == next);
    }
}

/// A comma between words is a gap like any other.
proof fn lemma_owed_tokens(scan: Scan, place: Place, rest: Seq<char>)
    requires
        scan.word =~= seq![],
    ensures
        scanned(scan, owed(place) + rest) == scanned(scan, rest),
{
    if place is AfterSeparator {
        lemma_first(scan, ',', rest);
        assert(advanced(scan, ',') == scan);
    } else {
        assert(owed(place) + rest =~= rest);
    }
}

proof fn lemma_unified_tokens(
    scan: Scan,
    s: Seq<char>,
    bodies: Bodies,
    place: Place,
    spaced: bool,
)
    requires
        spaced ==> scan.word =~= seq![],
        inside(bodies) && !(place is Field) ==> scan.word =~= seq![],
        place is AfterSeparator ==> inside(bodies),
    ensures
        finished(scanned(scan, unified(s, bodies, place, spaced))) == finished(scanned(scan, s)),
    decreases s.len(),
{
    if s.len() > 0 {
        lemma_space_length(s);
        let c = s[0];
        let t = s.drop_first();
        let next = advanced(scan, c);
        if place is AfterSeparator {
        } else {
            assert(owed(place) =~= seq![]);
        }
        if c == '{' {
            let rest = unified(t, opened(bodies), Place::Start, false);
            lemma_unified_tokens(next, t, opened(bodies), Place::Start, false);
            lemma_first(scan, c, rest);
            if place is AfterSeparator {
                lemma_owed_tokens(scan, place, seq![c] + rest);
            } else {
                assert(seq![] + (seq![c] + rest) =~= seq![c] + rest);
            }
        } else if c == '}' {
            let inner = closed(bodies);
            lemma_unified_tokens(next, t, inner, after_body(inner), false);
            lemma_first(scan, c, unified(t, inner, after_body(inner), false));
        } else if inside(bodies) && c == ',' {
            if place is Field {
                lemma_unified_tokens(next, t, bodies, Place::Start, false);
                lemma_first(scan, c, unified(t, bodies, Place::Start, false));
            } else {
                assert(next == scan);
                lemma_unified_tokens(scan, t, bodies, after_comma(place), spaced);
            }
        } else if is_space(c) {
            let n = space_length(s) as int;
            let rest = after_spaces(s);
            let place_after = after_run(s, bodies, place);
            assert(s =~= s.take(n) + rest);
            lemma_scanned_concat(scan, s.take(n), rest);
            lemma_spaces_are_one_gap(scan, s.take(n));
            let gap = advanced(scan, ' ');
            assert(advanced(scan, ',') == gap);
            lemma_first(scan, ',', unified(rest, bodies, Place::Start, false));
            lemma_first(scan, ' ', unified(rest, bodies, place_after, true));
            lemma_unified_tokens(gap, rest, bodies, Place::Start, false);
            lemma_unified_tokens(gap, rest, bodies, place_after, true);
            if spaced {
                assert(gap == scan);
            }
        } else {
            let (inner, place_after) = (counted(bodies, c), in_field(bodies, place));
            let rest = unified(t, inner, place_after, false);
            lemma_unified_tokens(next, t, inner, place_after, false);
            lemma_first(scan, c, rest);
            if place is AfterSeparator {
                lemma_owed_tokens(scan, place, seq![c] + rest);
            } else {
                assert(seq![] + (seq![c] + rest) =~= seq![c] + rest);
            }
        }
    }
}

proof fn lemma_first(scan: Scan, c: char, rest: Seq<char>)
    ensures
        scanned(scan, seq![c] + rest) == scanned(advanced(scan, c), rest),
{
    lemma_scanned_concat(scan, seq![c], rest);
    lemma_scanned_one(scan, c);
}

/// Between the first `n` characters and the others stands a space that was left out because of
/// the punctuation after it.
spec fn is_left_out(s: Seq<char>, n: nat) -> bool {
    0 < n < s.len() && s[n - 1] == ' ' && is_punctuation(s[n as int])
}

proof fn lemma_tightened_tokens(scan: Scan, s: Seq<char>, n: nat)
    requires
        n <= s.len(),
    ensures
        finished(scanned(scan, tightened(s, n))) == finished(scanned(scan, s.take(n as int))),
        !is_left_out(s, n) ==> scanned(scan, tightened(s, n)) == scanned(scan, s.take(n as int)),
    decreases n,
{
    if n == 0 {
        assert(s.take(0) =~= seq![]);
    } else {
        let i = n - 1;
        lemma_tightened_tokens(scan, s, i as nat);
        assert(s.take(n as int) =~= s.take(i).push(s[i]));
        lemma_scanned_push(scan, s.take(i), s[i]);
        lemma_scanned_push(scan, tightened(s, i as nat), s[i]);
        if i > 0 {
            assert(s.take(i) =~= s.take(i - 1).push(s[i - 1]));
            lemma_scanned_push(scan, s.take(i - 1), s[i - 1]);
        }
    }
}

proof fn lemma_trimmed_tokens(s: Seq<char>)
    ensures
        tokens(trimmed(s)) == tokens(s),
    decreases s.len(),
{
    if s.len() > 0 && white_space(s.last()) {
        lemma_trimmed_tokens(s.drop_last());
        assert(s =~= s.drop_last().push(s.last()));
        lemma_scanned_push(Scan { tokens: seq![], word: seq![] }, s.drop_last(), s.last());
    }
}

/// Normalization keeps the words and the punctuation of a text, in their order.
pub proof fn law_normalize_keeps_tokens(s: Seq<char>)
    ensures
        tokens(normalized(s)) == tokens(s),
{
    let scan = Scan { tokens: seq![], word: seq![] };
    let u = unified(s, before(s), Place::Start, true);
    lemma_unified_tokens(scan, s, before(s), Place::Start, true);
    lemma_tightened_tokens(scan, u, u.len());
    assert(u.take(u.len() as int) =~= u);
    lemma_trimmed_tokens(tightened(u, u.len()));
}

/// Two texts with the same canonical form have, without their field labels, the same words and
/// punctuation in the same order: struct names, field types and their order, attributes, and
/// everything outside of structs.
pub proof fn law_canonical_keeps_tokens(a: Seq<char>, b: Seq<char>)
    requires
        canonical(a) == canonical(b),
    ensures
        tokens(stripped(a)) == tokens(stripped(b)),
{
    law_normalize_keeps_tokens(stripped(a));
    law_normalize_keeps_tokens(stripped(b));
}

} // verus!
