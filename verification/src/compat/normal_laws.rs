//! Normal texts: those that normalization leaves as they are.
use crate::compat::canonical::{
    after_body, after_comma, after_run, after_spaces, before, begins_with_line_break, closed,
    closes_parentheses, counted, has_newline, in_field, inside, is_continuation, is_newline,
    is_punctuation, is_space, lemma_space_length, normalized, opened, outside, owed, space_length,
    tightened, trimmed, unified, Bodies, Place,
};
use crate::compat::canonical_laws::{
    all_space, lemma_no_brackets, lemma_spaces_have_no_brackets,
};
use crate::compat::text::white_space;
use vstd::prelude::*;

verus! {

/// Whitespace and separators are unified in a text, where `bodies` are open before it, `place`
/// tells where in the innermost body it begins, and `spaced` tells that a space more would be
/// redundant. A text at the place after a separator has that separator before it.
pub open spec fn is_unified(s: Seq<char>, bodies: Bodies, place: Place, spaced: bool) -> bool
    decreases s.len(),
{
    if s.len() == 0 {
        !(place is AfterSeparator)
    } else if s[0] == '{' {
        is_unified(s.drop_first(), opened(bodies), Place::Start, false)
    } else if s[0] == '}' {
        !(place is AfterSeparator) && is_unified(
            s.drop_first(),
            closed(bodies),
            after_body(closed(bodies)),
            false,
        )
    } else if inside(bodies) && s[0] == ',' {
        (place is Field || place is AfterBody) && is_unified(
            s.drop_first(),
            bodies,
            after_comma(place),
            false,
        )
    } else if is_space(s[0]) {
        s[0] == ' ' && !spaced && !(place is AfterSeparator) && is_unified(
            s.drop_first(),
            bodies,
            place,
            true,
        )
    } else {
        (place is AfterSeparator ==> !is_continuation(s[0])) && is_unified(
            s.drop_first(),
            counted(bodies, s[0]),
            in_field(bodies, place),
            false,
        )
    }
}

/// The place by what is written: a separator that is owed is not.
spec fn written(place: Place) -> Place {
    match place {
        Place::AfterSeparator => Place::AfterBody,
        _ => place,
    }
}

/// Unifying makes a text unified.
proof fn lemma_unified_is_unified(s: Seq<char>, bodies: Bodies, place: Place, spaced: bool)
    requires
        place is AfterSeparator ==> inside(bodies),
    ensures
        is_unified(unified(s, bodies, place, spaced), bodies, written(place), spaced),
    decreases s.len(),
{
    if s.len() > 0 {
        lemma_space_length(s);
        let c = s[0];
        let t = s.drop_first();
        if c == '{' {
            let u = unified(t, opened(bodies), Place::Start, false);
            lemma_unified_is_unified(t, opened(bodies), Place::Start, false);
            lemma_first_dropped(c, u);
            lemma_owed_is_unified(seq![c] + u, bodies, place, spaced);
        } else if c == '}' {
            let inner = closed(bodies);
            lemma_unified_is_unified(t, inner, after_body(inner), false);
            lemma_first_dropped(c, unified(t, inner, after_body(inner), false));
        } else if inside(bodies) && c == ',' {
            if place is Field {
                lemma_unified_is_unified(t, bodies, Place::Start, false);
                lemma_first_dropped(c, unified(t, bodies, Place::Start, false));
            } else {
                lemma_unified_is_unified(t, bodies, after_comma(place), spaced);
            }
        } else if is_space(c) {
            let rest = after_spaces(s);
            let next = after_run(s, bodies, place);
            lemma_unified_is_unified(rest, bodies, Place::Start, false);
            lemma_unified_is_unified(rest, bodies, next, true);
            lemma_first_dropped(',', unified(rest, bodies, Place::Start, false));
            lemma_first_dropped(' ', unified(rest, bodies, next, true));
        } else {
            let (inner, next) = (counted(bodies, c), in_field(bodies, place));
            let u = unified(t, inner, next, false);
            lemma_unified_is_unified(t, inner, next, false);
            lemma_first_dropped(c, u);
            if is_continuation(c) {
            } else {
                lemma_owed_is_unified(seq![c] + u, bodies, place, spaced);
            }
        }
    }
}

/// A text that may come after a separator may have it before it.
proof fn lemma_owed_is_unified(u: Seq<char>, bodies: Bodies, place: Place, spaced: bool)
    requires
        place is AfterSeparator ==> inside(bodies),
        u.len() > 0,
        is_unified(u, bodies, place, spaced),
        !is_space(u[0]),
        u[0] != ',' || !inside(bodies),
    ensures
        is_unified(owed(place) + u, bodies, written(place), spaced),
{
    if place is AfterSeparator {
        lemma_first_dropped(',', u);
        assert(is_unified(u, bodies, place, false));
    } else {
        assert(owed(place) + u =~= u);
    }
}

proof fn lemma_first_dropped(c: char, t: Seq<char>)
    ensures
        (seq![c] + t).drop_first() == t,
        (seq![c] + t)[0] == c,
{
    assert((seq![c] + t).drop_first() =~= t);
}

/// A unified text stays as it is, with the separator that is owed before it.
pub proof fn lemma_unified_is_kept(s: Seq<char>, bodies: Bodies, place: Place, spaced: bool)
    requires
        is_unified(s, bodies, place, spaced),
        place is AfterSeparator ==> inside(bodies),
    ensures
        unified(s, bodies, place, spaced) == owed(place) + s,
    decreases s.len(),
{
    if s.len() > 0 {
        let c = s[0];
        let t = s.drop_first();
        assert(seq![c] + t =~= s);
        assert(seq![] + s =~= s);
        assert(seq![] + t =~= t);
        if c == '{' {
            lemma_unified_is_kept(t, opened(bodies), Place::Start, false);
        } else if c == '}' {
            lemma_unified_is_kept(t, closed(bodies), after_body(closed(bodies)), false);
        } else if inside(bodies) && c == ',' {
            lemma_unified_is_kept(t, bodies, after_comma(place), false);
            if place is AfterBody {
                lemma_spaced_alike(t, bodies);
            }
        } else if is_space(c) {
            lemma_unified_is_kept(t, bodies, place, true);
            lemma_less_spaced(t, bodies, place);
            assert(space_length(t) == 0);
            assert(space_length(s) == 1);
            assert(after_spaces(s) =~= t);
            assert(!has_newline(s.take(1))) by {
                if has_newline(s.take(1)) {
                    let i = choose|i: int| 0 <= i < 1 && is_newline(#[trigger] s.take(1)[i]);
                    assert(s.take(1)[i] == s[0]);
                }
            }
            assert(!begins_with_line_break(s));
            assert(after_run(s, bodies, place) == place);
        } else {
            lemma_unified_is_kept(t, counted(bodies, c), in_field(bodies, place), false);
        }
    } else {
        assert(unified(s, bodies, place, spaced) =~= owed(place) + s);
    }
}

/// Where no space comes first, it does not matter whether one would be redundant.
proof fn lemma_spaced_alike(s: Seq<char>, bodies: Bodies)
    requires
        is_unified(s, bodies, Place::AfterSeparator, false),
        inside(bodies),
    ensures
        unified(s, bodies, Place::AfterSeparator, true) == unified(
            s,
            bodies,
            Place::AfterSeparator,
            false,
        ),
{
}

/// Where a space is not redundant, a text may begin as where it is.
proof fn lemma_less_spaced(s: Seq<char>, bodies: Bodies, place: Place)
    requires
        is_unified(s, bodies, place, true),
    ensures
        is_unified(s, bodies, place, false),
        s.len() > 0 ==> !is_space(s[0]),
{
}

proof fn lemma_unified_prefix(
    s: Seq<char>,
    n: int,
    bodies: Bodies,
    place: Place,
    spaced: bool,
)
    requires
        is_unified(s, bodies, place, spaced),
        0 <= n <= s.len(),
        n < s.len() ==> white_space(s[n]),
    ensures
        is_unified(s.take(n), bodies, place, spaced),
    decreases n,
{
    if n > 0 {
        let c = s[0];
        let t = s.drop_first();
        let p = s.take(n);
        assert(p[0] == c);
        assert(p.drop_first() =~= t.take(n - 1));
        if n < s.len() {
            assert(t[n - 1] == s[n]);
        }
        if c == '{' {
            lemma_unified_prefix(t, n - 1, opened(bodies), Place::Start, false);
        } else if c == '}' {
            lemma_unified_prefix(t, n - 1, closed(bodies), after_body(closed(bodies)), false);
        } else if inside(bodies) && c == ',' {
            lemma_unified_prefix(t, n - 1, bodies, after_comma(place), false);
        } else if is_space(c) {
            lemma_unified_prefix(t, n - 1, bodies, place, true);
        } else {
            lemma_unified_prefix(t, n - 1, counted(bodies, c), in_field(bodies, place), false);
        }
    }
}

/// A text without the spaces that have punctuation next to them, where `after_punctuation` tells
/// what comes before it.
spec fn without_gaps(s: Seq<char>, after_punctuation: bool) -> Seq<char>
    decreases s.len(),
{
    if s.len() == 0 {
        seq![]
    } else if s[0] == ' ' && (after_punctuation || (s.len() > 1 && is_punctuation(s[1]))) {
        without_gaps(s.drop_first(), false)
    } else {
        seq![s[0]] + without_gaps(s.drop_first(), is_punctuation(s[0]))
    }
}

proof fn lemma_tightened_is_without_gaps(p: Seq<char>, q: Seq<char>)
    ensures
        tightened(p + q, (p + q).len()) == tightened(p + q, p.len()) + without_gaps(
            q,
            p.len() > 0 && is_punctuation(p.last()),
        ),
    decreases q.len(),
{
    let s = p + q;
    if q.len() == 0 {
        assert(s =~= p);
        assert(tightened(s, s.len()) =~= tightened(s, p.len()) + without_gaps(
            q,
            p.len() > 0 && is_punctuation(p.last()),
        ));
    } else {
        let c = q[0];
        let next = p.push(c);
        let rest = q.drop_first();
        assert(next + rest =~= s);
        lemma_tightened_is_without_gaps(next, rest);
        let i = p.len() as int;
        assert(s[i] == c);
        if i > 0 {
            assert(s[i - 1] == p.last());
        }
        if q.len() > 1 {
            assert(s[i + 1] == q[1]);
        }
        assert(tightened(s, s.len()) =~= tightened(s, p.len()) + without_gaps(
            q,
            p.len() > 0 && is_punctuation(p.last()),
        ));
    }
}

proof fn lemma_tight_is_without_gaps(s: Seq<char>)
    ensures
        tightened(s, s.len()) == without_gaps(s, false),
{
    lemma_tightened_is_without_gaps(seq![], s);
    assert(seq![] + s =~= s);
    assert(seq![] + without_gaps(s, false) =~= without_gaps(s, false));
}

/// No space has punctuation next to it, where `after_punctuation` tells what comes before the
/// text.
pub open spec fn has_no_gaps(s: Seq<char>, after_punctuation: bool) -> bool
    decreases s.len(),
{
    if s.len() == 0 {
        true
    } else if s[0] == ' ' {
        !after_punctuation && !(s.len() > 1 && is_punctuation(s[1])) && has_no_gaps(
            s.drop_first(),
            false,
        )
    } else {
        has_no_gaps(s.drop_first(), is_punctuation(s[0]))
    }
}

/// Leaving out those spaces keeps a text unified, and leaves none of them.
proof fn lemma_without_gaps(
    s: Seq<char>,
    after_punctuation: bool,
    bodies: Bodies,
    place: Place,
    spaced: bool,
)
    requires
        is_unified(s, bodies, place, spaced),
    ensures
        is_unified(without_gaps(s, after_punctuation), bodies, place, spaced),
        has_no_gaps(without_gaps(s, after_punctuation), after_punctuation),
        s.len() > 0 && !is_space(s[0]) ==> without_gaps(s, after_punctuation).len() > 0
            && without_gaps(s, after_punctuation)[0] == s[0],
    decreases s.len(),
{
    if s.len() > 0 {
        let c = s[0];
        let t = s.drop_first();
        if c == '{' {
            lemma_without_gaps(t, true, opened(bodies), Place::Start, false);
            lemma_first_dropped(c, without_gaps(t, true));
        } else if c == '}' {
            lemma_without_gaps(t, true, closed(bodies), after_body(closed(bodies)), false);
            lemma_first_dropped(c, without_gaps(t, true));
        } else if inside(bodies) && c == ',' {
            lemma_without_gaps(t, true, bodies, after_comma(place), false);
            lemma_first_dropped(c, without_gaps(t, true));
        } else if is_space(c) {
            lemma_without_gaps(t, false, bodies, place, true);
            let r = without_gaps(t, false);
            lemma_first_dropped(c, r);
            lemma_less_spaced(t, bodies, place);
            if t.len() == 0 {
                assert(r =~= seq![]);
            }
            if after_punctuation || (s.len() > 1 && is_punctuation(s[1])) {
                lemma_less_spaced(r, bodies, place);
            }
        } else {
            let p = is_punctuation(c);
            lemma_without_gaps(t, p, counted(bodies, c), in_field(bodies, place), false);
            lemma_first_dropped(c, without_gaps(t, p));
        }
    }
}

proof fn lemma_no_gaps_is_kept(s: Seq<char>, after_punctuation: bool)
    requires
        has_no_gaps(s, after_punctuation),
    ensures
        without_gaps(s, after_punctuation) == s,
    decreases s.len(),
{
    if s.len() > 0 {
        let t = s.drop_first();
        assert(seq![s[0]] + t =~= s);
        lemma_no_gaps_is_kept(t, if s[0] == ' ' { false } else { is_punctuation(s[0]) });
    } else {
        assert(without_gaps(s, after_punctuation) =~= s);
    }
}

proof fn lemma_no_gaps_prefix(s: Seq<char>, n: int, after_punctuation: bool)
    requires
        has_no_gaps(s, after_punctuation),
        0 <= n <= s.len(),
    ensures
        has_no_gaps(s.take(n), after_punctuation),
    decreases n,
{
    if n > 0 {
        let t = s.drop_first();
        let p = s.take(n);
        assert(p[0] == s[0]);
        assert(p.drop_first() =~= t.take(n - 1));
        if n > 1 {
            assert(p[1] == s[1]);
        }
        lemma_no_gaps_prefix(t, n - 1, if s[0] == ' ' { false } else { is_punctuation(s[0]) });
    }
}

proof fn lemma_trimmed(s: Seq<char>)
    ensures
        trimmed(s).len() <= s.len(),
        trimmed(s) == s.take(trimmed(s).len() as int),
        trimmed(s).len() > 0 ==> !white_space(trimmed(s).last()),
        forall|i: int| trimmed(s).len() <= i < s.len() ==> white_space(#[trigger] s[i]),
    decreases s.len(),
{
    if s.len() > 0 && white_space(s.last()) {
        let t = s.drop_last();
        lemma_trimmed(t);
        assert(t.take(trimmed(s).len() as int) =~= s.take(trimmed(s).len() as int));
        assert forall|i: int| trimmed(s).len() <= i < s.len() implies white_space(
            #[trigger] s[i],
        ) by {
            if i < t.len() {
                assert(t[i] == s[i]);
            }
        }
    } else {
        assert(s.take(s.len() as int) =~= s);
    }
}

// Normalization keeps braces and parentheses.
proof fn lemma_unified_closes(
    s: Seq<char>,
    bodies: Bodies,
    place: Place,
    spaced: bool,
    around: Bodies,
)
    ensures
        closes_parentheses(unified(s, bodies, place, spaced), around) == closes_parentheses(
            s,
            around,
        ),
    decreases s.len(),
{
    if s.len() > 0 {
        lemma_space_length(s);
        let c = s[0];
        let t = s.drop_first();
        if c == '{' {
            let u = unified(t, opened(bodies), Place::Start, false);
            lemma_unified_closes(t, opened(bodies), Place::Start, false, opened(around));
            lemma_first_dropped(c, u);
            lemma_no_brackets(owed(place), seq![c] + u, around);
        } else if c == '}' {
            let inner = closed(bodies);
            lemma_unified_closes(t, inner, after_body(inner), false, closed(around));
            lemma_first_dropped(c, unified(t, inner, after_body(inner), false));
        } else if inside(bodies) && c == ',' {
            lemma_unified_closes(t, bodies, Place::Start, false, around);
            lemma_unified_closes(t, bodies, after_comma(place), spaced, around);
            lemma_first_dropped(c, unified(t, bodies, Place::Start, false));
        } else if is_space(c) {
            let n = space_length(s) as int;
            let rest = after_spaces(s);
            let next = after_run(s, bodies, place);
            assert(s =~= s.take(n) + rest);
            assert(all_space(s.take(n)));
            lemma_spaces_have_no_brackets(s.take(n));
            lemma_no_brackets(s.take(n), rest, around);
            lemma_unified_closes(rest, bodies, Place::Start, false, around);
            lemma_unified_closes(rest, bodies, next, true, around);
            lemma_first_dropped(',', unified(rest, bodies, Place::Start, false));
            lemma_first_dropped(' ', unified(rest, bodies, next, true));
        } else {
            let (inner, next) = (counted(bodies, c), in_field(bodies, place));
            let u = unified(t, inner, next, false);
            lemma_unified_closes(t, inner, next, false, counted(around, c));
            lemma_first_dropped(c, u);
            lemma_no_brackets(owed(place), seq![c] + u, around);
        }
    }
}

proof fn lemma_without_gaps_closes(s: Seq<char>, after_punctuation: bool, around: Bodies)
    ensures
        closes_parentheses(without_gaps(s, after_punctuation), around) == closes_parentheses(
            s,
            around,
        ),
    decreases s.len(),
{
    if s.len() > 0 {
        let c = s[0];
        let t = s.drop_first();
        let p = is_punctuation(c);
        lemma_first_dropped(c, without_gaps(t, p));
        lemma_without_gaps_closes(t, false, around);
        lemma_without_gaps_closes(t, p, opened(around));
        lemma_without_gaps_closes(t, p, closed(around));
        lemma_without_gaps_closes(t, p, counted(around, c));
    }
}

proof fn lemma_prefix_closes(s: Seq<char>, n: int, around: Bodies)
    requires
        0 <= n <= s.len(),
        forall|i: int| n <= i < s.len() ==> white_space(#[trigger] s[i]),
    ensures
        closes_parentheses(s.take(n), around) == closes_parentheses(s, around),
    decreases s.len(),
{
    if n == s.len() {
        assert(s.take(n) =~= s);
    } else {
        let t = s.drop_first();
        assert forall|i: int| n - 1 <= i < t.len() && 0 <= i implies white_space(
            #[trigger] t[i],
        ) by {
            assert(t[i] == s[i + 1]);
        }
        if n == 0 {
            assert(white_space(s[0]));
            assert(s.take(0) =~= seq![]);
            assert(t.take(0) =~= seq![]);
            lemma_prefix_closes(t, 0, around);
        } else {
            let p = s.take(n);
            assert(p[0] == s[0]);
            assert(p.drop_first() =~= t.take(n - 1));
            lemma_prefix_closes(t, n - 1, opened(around));
            lemma_prefix_closes(t, n - 1, closed(around));
            lemma_prefix_closes(t, n - 1, counted(around, s[0]));
        }
    }
}

/// What a normalized text looks like: its only spaces are single ones between two characters that
/// are no punctuation, in a struct body there is one comma between two fields, and it does not end
/// with whitespace. Its parentheses are closed as they were.
pub proof fn law_normalized_is_normal(s: Seq<char>)
    ensures
        before(normalized(s)) == before(s),
        is_unified(normalized(s), before(s), Place::Start, true),
        has_no_gaps(normalized(s), false),
        normalized(s).len() > 0 ==> !white_space(normalized(s).last()),
{
    let b = before(s);
    let u = unified(s, b, Place::Start, true);
    let r = without_gaps(u, false);
    let n = normalized(s);
    lemma_unified_is_unified(s, b, Place::Start, true);
    lemma_tight_is_without_gaps(u);
    lemma_without_gaps(u, false, b, Place::Start, true);
    lemma_trimmed(r);
    assert(n == r.take(n.len() as int));
    lemma_unified_closes(s, b, Place::Start, true, outside());
    lemma_without_gaps_closes(u, false, outside());
    lemma_prefix_closes(r, n.len() as int, outside());
    lemma_unified_prefix(r, n.len() as int, b, Place::Start, true);
    lemma_no_gaps_prefix(r, n.len() as int, false);
}

/// Normalizing twice gives what normalizing once gives.
pub proof fn law_normalize_is_idempotent(s: Seq<char>)
    ensures
        normalized(normalized(s)) == normalized(s),
{
    let n = normalized(s);
    law_normalized_is_normal(s);
    lemma_unified_is_kept(n, before(n), Place::Start, true);
    assert(owed(Place::Start) + n =~= n);
    lemma_tight_is_without_gaps(n);
    lemma_no_gaps_is_kept(n, false);
}

/// A space in a normalized text stands between two characters, neither of which is a space, a line
/// break, a tab, a brace, a parenthesis, a comma, a colon or an angle bracket. There are no tabs and
/// no line breaks.
pub proof fn law_normalized_spaces(s: Seq<char>, i: int)
    requires
        0 <= i < normalized(s).len(),
    ensures
        normalized(s)[i] != '\t' && normalized(s)[i] != '\n' && normalized(s)[i] != '\r',
        normalized(s)[i] == ' ' ==> {
            &&& 0 < i < normalized(s).len() - 1
            &&& is_ordinary_char(normalized(s)[i - 1])
            &&& is_ordinary_char(normalized(s)[i + 1])
        },
{
    let n = normalized(s);
    law_normalized_is_normal(s);
    lemma_spaces_of_unified(n, before(s), Place::Start, true, i);
    if n[i] == ' ' {
        lemma_spaces_without_gaps(n, false, i);
        if i == n.len() - 1 {
            assert(white_space(n.last()));
        }
    }
}

/// A character that a space may stand next to.
pub open spec fn is_ordinary_char(c: char) -> bool {
    &&& c != ' ' && c != '\t' && c != '\n' && c != '\r'
    &&& c != '{' && c != '}' && c != '(' && c != ')' && c != ',' && c != ':' && c != '<' && c != '>'
}

proof fn lemma_spaces_of_unified(
    s: Seq<char>,
    bodies: Bodies,
    place: Place,
    spaced: bool,
    i: int,
)
    requires
        is_unified(s, bodies, place, spaced),
        0 <= i < s.len(),
    ensures
        is_space(s[i]) ==> s[i] == ' ',
        is_space(s[i]) && i == 0 ==> !spaced,
        is_space(s[i]) && i > 0 ==> !is_space(s[i - 1]),
        is_space(s[i]) && i + 1 < s.len() ==> !is_space(s[i + 1]),
    decreases s.len(),
{
    let c = s[0];
    let t = s.drop_first();
    if i > 0 {
        assert(t[i - 1] == s[i]);
        if i > 1 {
            assert(t[i - 2] == s[i - 1]);
        }
        if i + 1 < s.len() {
            assert(t[i] == s[i + 1]);
        }
        if c == '{' {
            lemma_spaces_of_unified(t, opened(bodies), Place::Start, false, i - 1);
        } else if c == '}' {
            lemma_spaces_of_unified(t, closed(bodies), after_body(closed(bodies)), false, i - 1);
        } else if inside(bodies) && c == ',' {
            lemma_spaces_of_unified(t, bodies, after_comma(place), false, i - 1);
        } else if is_space(c) {
            lemma_spaces_of_unified(t, bodies, place, true, i - 1);
        } else {
            lemma_spaces_of_unified(t, counted(bodies, c), in_field(bodies, place), false, i - 1);
        }
    } else if is_space(c) && c != '{' && c != '}' && c != ',' && s.len() > 1 {
        lemma_less_spaced(t, bodies, place);
        assert(t[0] == s[1]);
    }
}

proof fn lemma_spaces_without_gaps(s: Seq<char>, after_punctuation: bool, i: int)
    requires
        has_no_gaps(s, after_punctuation),
        0 <= i < s.len(),
        s[i] == ' ',
    ensures
        i > 0 ==> !is_punctuation(s[i - 1]),
        i == 0 ==> !after_punctuation,
        i + 1 < s.len() ==> !is_punctuation(s[i + 1]),
    decreases s.len(),
{
    let t = s.drop_first();
    if i > 0 {
        assert(t[i - 1] == s[i]);
        if i > 1 {
            assert(t[i - 2] == s[i - 1]);
        }
        if i + 1 < s.len() {
            assert(t[i] == s[i + 1]);
        }
        lemma_spaces_without_gaps(t, if s[0] == ' ' { false } else { is_punctuation(s[0]) }, i - 1);
    }
}

} // verus!
