//! What the canonical form ignores: field labels, padding, and how fields are separated.
use crate::compat::canonical::{
    after_body, after_comma, after_identifier, after_run, after_spaces, before, begins_identifier,
    begins_with_field, begins_with_label, begins_with_line_break, between_fields, blank_length,
    canonical, closed, closes_parentheses, counted, ends_field, has_newline, identifier_length,
    in_field, in_identifier, inside, is_blank, is_continuation, is_newline, is_punctuation,
    is_space, lemma_after_identifier_is_shorter, lemma_blank_length, lemma_identifier_length,
    lemma_space_length, normalized, opened, outside, owed, space_length, stripped, tightened,
    trimmed, unified, unlabeled, Bodies, Place,
};
use crate::compat::text::white_space;
use vstd::prelude::*;

verus! {

// Characters.
/// Which ASCII characters are what. An identifier begins with a letter or `_`, and goes on with
/// letters, digits, `_` and `-`. Blanks are spaces and tabs, and line breaks are line feeds and
/// carriage returns. Braces, parentheses, commas, colons and angle brackets are punctuation.
pub proof fn law_characters(c: char)
    requires
        c <= '\x7f',
    ensures
        begins_identifier(c) <==> ('a' <= c <= 'z') || ('A' <= c <= 'Z') || c == '_',
        in_identifier(c) <==> ('a' <= c <= 'z') || ('A' <= c <= 'Z') || ('0' <= c <= '9') || c
            == '_' || c == '-',
        is_blank(c) <==> c == ' ' || c == '\t',
        is_newline(c) <==> c == '\n' || c == '\r',
        is_space(c) <==> c == ' ' || c == '\t' || c == '\n' || c == '\r',
        white_space(c) <==> c == ' ' || c == '\t' || c == '\n' || c == '\r' || c == '\x0b' || c
            == '\x0c',
        is_punctuation(c) <==> c == '{' || c == '}' || c == '(' || c == ')' || c == ',' || c == ':'
            || c == '<' || c == '>',
        is_continuation(c) <==> c == ')' || c == '>' || c == ']' || c == ';' || c == ':' || c == ' '
            || c == '\t' || c == '\n' || c == '\r' || c == '\x0b' || c == '\x0c',
{
}

// Labels.
/// The open bodies, and whether a field is about to begin, after a text.
pub open spec fn label_state(s: Seq<char>, bodies: Bodies, at_field_start: bool) -> (Bodies, bool)
    decreases s.len(),
{
    proof {
        lemma_after_identifier_is_shorter(s);
    }
    if s.len() == 0 {
        (bodies, at_field_start)
    } else if s[0] == '{' {
        label_state(s.drop_first(), opened(bodies), true)
    } else if s[0] == '}' {
        label_state(s.drop_first(), closed(bodies), false)
    } else if between_fields(bodies) && (s[0] == ',' || is_newline(s[0])) {
        label_state(s.drop_first(), bodies, true)
    } else if inside(bodies) && at_field_start && begins_identifier(s[0]) {
        if begins_with_label(s) {
            label_state(after_identifier(s).drop_first(), bodies, false)
        } else {
            label_state(s.skip(identifier_length(s) as int), bodies, false)
        }
    } else {
        label_state(
            s.drop_first(),
            counted(bodies, s[0]),
            at_field_start && (!inside(bodies) || white_space(s[0])),
        )
    }
}

/// In the text `p + r`, in a struct body, a field is about to begin after `p`, which ends with a
/// brace, a comma or whitespace.
pub open spec fn is_field_start(p: Seq<char>, r: Seq<char>) -> bool {
    let (bodies, at_field_start) = label_state(p, before(p + r), false);
    &&& p.len() > 0
    &&& p.last() == '{' || p.last() == ',' || is_space(p.last())
    &&& between_fields(bodies)
    &&& at_field_start
}

pub open spec fn is_identifier(l: Seq<char>) -> bool {
    &&& l.len() > 0
    &&& begins_identifier(l[0])
    &&& forall|i: int| 0 <= i < l.len() ==> in_identifier(#[trigger] l[i])
}

pub open spec fn all_blank(s: Seq<char>) -> bool {
    forall|i: int| 0 <= i < s.len() ==> is_blank(#[trigger] s[i])
}

pub open spec fn all_space(s: Seq<char>) -> bool {
    forall|i: int| 0 <= i < s.len() ==> is_space(#[trigger] s[i])
}

/// After whitespace on the same line, the text begins with a field label.
pub open spec fn begins_with_labeled_field(s: Seq<char>) -> bool
    decreases s.len(),
{
    if s.len() > 0 && white_space(s[0]) && !is_newline(s[0]) && !begins_identifier(s[0]) {
        begins_with_labeled_field(s.drop_first())
    } else {
        begins_with_label(s)
    }
}

proof fn lemma_identifier_length_extended(p: Seq<char>, q: Seq<char>)
    requires
        q.len() > 0 ==> !in_identifier(q[0]),
    ensures
        identifier_length(p + q) == identifier_length(p),
    decreases p.len(),
{
    if p.len() == 0 {
        assert(p + q =~= q);
    } else {
        assert((p + q).drop_first() =~= p.drop_first() + q);
        lemma_identifier_length_extended(p.drop_first(), q);
    }
}

proof fn lemma_identifier_length_inside(p: Seq<char>, q: Seq<char>)
    requires
        identifier_length(p) < p.len(),
    ensures
        identifier_length(p + q) == identifier_length(p),
    decreases p.len(),
{
    if in_identifier(p[0]) {
        assert((p + q).drop_first() =~= p.drop_first() + q);
        lemma_identifier_length_inside(p.drop_first(), q);
    }
}

proof fn lemma_blank_length_extended(p: Seq<char>, q: Seq<char>)
    ensures
        blank_length(p) < p.len() ==> blank_length(p + q) == blank_length(p),
        blank_length(p) == p.len() ==> blank_length(p + q) == p.len() + blank_length(q),
    decreases p.len(),
{
    if p.len() == 0 {
        assert(p + q =~= q);
    } else {
        assert((p + q).drop_first() =~= p.drop_first() + q);
        lemma_blank_length(p);
        lemma_blank_length_extended(p.drop_first(), q);
    }
}

proof fn lemma_whole_blank(s: Seq<char>)
    requires
        all_blank(s),
    ensures
        blank_length(s) == s.len(),
{
    lemma_blank_length(s);
}

/// Blanks do not make a field begin.
proof fn lemma_state_over_blanks(s: Seq<char>, bodies: Bodies)
    requires
        all_blank(s),
    ensures
        label_state(s, bodies, false) == (bodies, false),
    decreases s.len(),
{
    if s.len() > 0 {
        assert(is_blank(s[0]));
        assert(all_blank(s.drop_first())) by {
            assert forall|i: int| 0 <= i < s.drop_first().len() implies is_blank(
                #[trigger] s.drop_first()[i],
            ) by {
                assert(s.drop_first()[i] == s[i + 1]);
            }
        }
        lemma_state_over_blanks(s.drop_first(), bodies);
    }
}

/// What is kept of `p` does not depend on what follows, if a field is about to begin after it.
proof fn lemma_split_at_field_start(p: Seq<char>, q: Seq<char>, bodies: Bodies, start: bool)
    requires
        p.len() > 0 ==> p.last() == '{' || p.last() == ',' || is_space(p.last()),
        label_state(p, bodies, start).1,
    ensures
        unlabeled(p + q, bodies, start) == unlabeled(p, bodies, start) + unlabeled(
            q,
            label_state(p, bodies, start).0,
            true,
        ),
    decreases p.len(),
{
    lemma_after_identifier_is_shorter(p);
    if p.len() == 0 {
        assert(p + q =~= q);
        assert(unlabeled(p, bodies, start) + unlabeled(q, bodies, true) =~= unlabeled(q, bodies, true));
    } else {
        let c = p[0];
        assert((p + q)[0] == c);
        let here = unlabeled(p + q, bodies, start);
        let (d, st) = label_state(p, bodies, start);
        if !(c == '{' || c == '}' || (between_fields(bodies) && (c == ',' || is_newline(c)))) && inside(bodies) && start
            && begins_identifier(c) {
            let n = identifier_length(p);
            lemma_identifier_length(p);
            assert(!in_identifier(p.last()));
            assert(n < p.len()) by {
                if n == p.len() {
                    assert(in_identifier(p[p.len() - 1]));
                }
            }
            lemma_identifier_length_inside(p, q);
            let rest = p.skip(n as int);
            assert((p + q).skip(n as int) =~= rest + q);
            lemma_blank_length(rest);
            lemma_blank_length_extended(rest, q);
            let m = blank_length(rest);
            if m == rest.len() {
                assert(after_identifier(p) =~= seq![]);
                assert(all_blank(rest));
                lemma_state_over_blanks(rest, bodies);
                assert(!begins_with_label(p));
                assert(false);
            }
            let after = after_identifier(p);
            assert(after_identifier(p + q) =~= after + q) by {
                assert((rest + q).skip(m as int) =~= rest.skip(m as int) + q);
            }
            assert(after.last() == p.last());
            if after[0] == ':' {
                assert(after.len() > 1);
                assert((after + q)[1] == after[1]);
            }
            assert(begins_with_label(p + q) == begins_with_label(p));
            if begins_with_label(p) {
                let t = after.drop_first();
                assert((after + q).drop_first() =~= t + q);
                assert(t.len() > 0);
                assert(t.last() == p.last());
                lemma_split_at_field_start(t, q, bodies, false);
            } else {
                assert(rest.last() == p.last());
                lemma_split_at_field_start(rest, q, bodies, false);
                assert((p + q).take(n as int) =~= p.take(n as int));
                assert(here =~= unlabeled(p, bodies, start) + unlabeled(q, d, true));
            }
        } else {
            let t = p.drop_first();
            assert((p + q).drop_first() =~= t + q);
            if t.len() > 0 {
                assert(t.last() == p.last());
            }
            if c == '{' {
                lemma_split_at_field_start(t, q, opened(bodies), true);
            } else if c == '}' {
                lemma_split_at_field_start(t, q, closed(bodies), false);
            } else if between_fields(bodies) && (c == ',' || is_newline(c)) {
                lemma_split_at_field_start(t, q, bodies, true);
            } else {
                lemma_split_at_field_start(t, q, counted(bodies, c), start && (!inside(bodies) || white_space(c)));
            }
            assert(here =~= unlabeled(p, bodies, start) + unlabeled(q, d, true));
        }
    }
}

proof fn lemma_whole_identifier(l: Seq<char>)
    requires
        forall|i: int| 0 <= i < l.len() ==> in_identifier(#[trigger] l[i]),
    ensures
        identifier_length(l) == l.len(),
{
    lemma_identifier_length(l);
}

/// A label with its colon.
pub open spec fn label(l: Seq<char>, b: Seq<char>) -> Seq<char> {
    l + b + seq![':']
}

/// A label at the start of a field is dropped.
pub(crate) proof fn lemma_label_is_dropped(l: Seq<char>, b: Seq<char>, r: Seq<char>, bodies: Bodies)
    requires
        is_identifier(l),
        all_blank(b),
        r.len() > 0 ==> r[0] != ':',
        inside(bodies),
    ensures
        unlabeled(label(l, b) + r, bodies, true) == unlabeled(r, bodies, false),
{
    let s = label(l, b) + r;
    let tail = b + seq![':'] + r;
    assert(s =~= l + tail);
    assert(tail[0] == if b.len() > 0 { b[0] } else { ':' });
    lemma_whole_identifier(l);
    lemma_identifier_length_extended(l, tail);
    assert(s.skip(l.len() as int) =~= tail);
    let end = seq![':'] + r;
    assert(tail =~= b + end);
    lemma_whole_blank(b);
    lemma_blank_length_extended(b, end);
    assert(blank_length(end) == 0);
    assert(tail.skip(b.len() as int) =~= end);
    assert(after_identifier(s) == end);
    assert(end.len() > 1 ==> end[1] == r[0]);
    assert(s[0] == l[0]);
    assert(begins_with_label(s));
    assert(end.drop_first() =~= r);
}

/// Inside an identifier nothing is dropped.
proof fn lemma_identifier_is_kept(s: Seq<char>, n: nat, bodies: Bodies)
    requires
        n <= identifier_length(s),
        inside(bodies),
    ensures
        unlabeled(s, bodies, false) == s.take(n as int) + unlabeled(s.skip(n as int), bodies, false),
    decreases n,
{
    lemma_identifier_length(s);
    if n == 0 {
        assert(s.skip(0) =~= s);
        assert(s.take(0) + unlabeled(s, bodies, false) =~= unlabeled(s, bodies, false));
    } else {
        let t = s.drop_first();
        assert(in_identifier(s[0]));
        lemma_identifier_is_kept(t, (n - 1) as nat, bodies);
        assert(t.skip(n - 1) =~= s.skip(n as int));
        assert(unlabeled(s, bodies, false) =~= s.take(n as int) + unlabeled(
            s.skip(n as int),
            bodies,
            false,
        ));
    }
}

/// Without a label it does not matter that a field is about to begin.
pub(crate) proof fn lemma_no_label(r: Seq<char>, bodies: Bodies)
    requires
        between_fields(bodies),
        !begins_with_labeled_field(r),
    ensures
        unlabeled(r, bodies, true) == unlabeled(r, bodies, false),
    decreases r.len(),
{
    if r.len() > 0 {
        let c = r[0];
        if c == '{' || c == '}' || c == ',' || is_newline(c) {
        } else if begins_identifier(c) {
            lemma_identifier_length(r);
            lemma_identifier_is_kept(r, identifier_length(r), bodies);
        } else if white_space(c) {
            lemma_no_label(r.drop_first(), bodies);
        }
    }
}

// Separators and spaces.
/// The open bodies, the place in the innermost of them, and whether a space more would be
/// redundant, after a text.
pub open spec fn space_state(
    s: Seq<char>,
    bodies: Bodies,
    place: Place,
    spaced: bool,
) -> (Bodies, Place, bool)
    decreases s.len(),
{
    proof {
        lemma_space_length(s);
    }
    if s.len() == 0 {
        (bodies, place, spaced)
    } else if s[0] == '{' {
        space_state(s.drop_first(), opened(bodies), Place::Start, false)
    } else if s[0] == '}' {
        space_state(s.drop_first(), closed(bodies), after_body(closed(bodies)), false)
    } else if inside(bodies) && s[0] == ',' {
        space_state(s.drop_first(), bodies, after_comma(place), spaced && !(place is Field))
    } else if is_space(s[0]) {
        if ends_field(s, bodies, place) {
            space_state(after_spaces(s), bodies, Place::Start, false)
        } else {
            space_state(after_spaces(s), bodies, after_run(s, bodies, place), true)
        }
    } else {
        space_state(s.drop_first(), counted(bodies, s[0]), in_field(bodies, place), false)
    }
}

proof fn lemma_space_length_extended(p: Seq<char>, q: Seq<char>)
    ensures
        space_length(p) < p.len() ==> space_length(p + q) == space_length(p),
        space_length(p) == p.len() ==> space_length(p + q) == p.len() + space_length(q),
    decreases p.len(),
{
    if p.len() == 0 {
        assert(p + q =~= q);
    } else {
        assert((p + q).drop_first() =~= p.drop_first() + q);
        lemma_space_length(p);
        lemma_space_length_extended(p.drop_first(), q);
    }
}

proof fn lemma_append(x: Seq<char>, y: Seq<char>, z: Seq<char>)
    ensures
        x + (y + z) == (x + y) + z,
        y.len() > 0 ==> (x + y).len() > 0 && (x + y).last() == y.last(),
{
    assert(x + (y + z) =~= (x + y) + z);
}

/// What `p` becomes does not depend on what follows, if it does not end with a space.
proof fn lemma_unified_split(
    p: Seq<char>,
    q: Seq<char>,
    bodies: Bodies,
    place: Place,
    spaced: bool,
)
    requires
        p.len() > 0 ==> !is_space(p.last()),
    ensures
        ({
            let (d, a, s) = space_state(p, bodies, place, spaced);
            unified(p + q, bodies, place, spaced) == unified(p, bodies, place, spaced)
                + unified(q, d, a, s)
        }),
    decreases p.len(),
{
    let (d, a, sp) = space_state(p, bodies, place, spaced);
    if p.len() == 0 {
        assert(p + q =~= q);
        assert(unified(p, bodies, place, spaced) =~= seq![]);
        assert(seq![] + unified(q, d, a, sp) =~= unified(q, d, a, sp));
    } else {
        let c = p[0];
        let t = p.drop_first();
        assert((p + q)[0] == c);
        assert((p + q).drop_first() =~= t + q);
        if t.len() > 0 {
            assert(t.last() == p.last());
        }
        let end = unified(q, d, a, sp);
        if c == '{' {
            let u = unified(t, opened(bodies), Place::Start, false);
            lemma_unified_split(t, q, opened(bodies), Place::Start, false);
            lemma_append(seq![c], u, end);
            lemma_append(owed(place), seq![c] + u, end);
        } else if c == '}' {
            let inner = closed(bodies);
            lemma_unified_split(t, q, inner, after_body(inner), false);
            lemma_append(seq![c], unified(t, inner, after_body(inner), false), end);
        } else if inside(bodies) && c == ',' {
            lemma_unified_split(t, q, bodies, after_comma(place), spaced && !(place is Field));
            lemma_append(seq![c], unified(t, bodies, Place::Start, false), end);
        } else if is_space(c) {
            lemma_space_length(p);
            lemma_space_length_extended(p, q);
            let n = space_length(p);
            if n == p.len() {
                assert(is_space(p[p.len() - 1]));
            }
            let rest = after_spaces(p);
            assert(after_spaces(p + q) =~= rest + q);
            assert((p + q).take(n as int) =~= p.take(n as int));
            assert((rest + q)[0] == rest[0]);
            assert(begins_with_line_break(p + q) == begins_with_line_break(p));
            assert(ends_field(p + q, bodies, place) == ends_field(p, bodies, place));
            assert(after_run(p + q, bodies, place) == after_run(p, bodies, place));
            assert(rest.last() == p.last());
            if ends_field(p, bodies, place) {
                lemma_unified_split(rest, q, bodies, Place::Start, false);
                lemma_append(seq![','], unified(rest, bodies, Place::Start, false), end);
            } else {
                let next = after_run(p, bodies, place);
                lemma_unified_split(rest, q, bodies, next, true);
                lemma_append(seq![' '], unified(rest, bodies, next, true), end);
            }
        } else {
            let (inner, next) = (counted(bodies, c), in_field(bodies, place));
            let u = unified(t, inner, next, false);
            lemma_unified_split(t, q, inner, next, false);
            lemma_append(seq![c], u, end);
            lemma_append(owed(place), seq![c] + u, end);
        }
    }
}

/// Where a space would be redundant none is written first, and elsewhere at most one more.
proof fn lemma_spaced(s: Seq<char>, bodies: Bodies, place: Place)
    ensures
        unified(s, bodies, place, true).len() > 0 ==> unified(
            s,
            bodies,
            place,
            true,
        )[0] != ' ',
        unified(s, bodies, place, false) == unified(s, bodies, place, true) || unified(
            s,
            bodies,
            place,
            false,
        ) == seq![' '] + unified(s, bodies, place, true),
    decreases s.len(),
{
    if s.len() > 0 {
        lemma_space_length(s);
        if inside(bodies) && s[0] == ',' && !(place is Field) {
            lemma_spaced(s.drop_first(), bodies, after_comma(place));
        } else if is_space(s[0]) && s[0] != '{' && s[0] != '}' {
            lemma_spaced(after_spaces(s), bodies, after_run(s, bodies, place));
        }
    }
}

proof fn lemma_tightened_same_prefix(x: Seq<char>, y: Seq<char>, n: nat)
    requires
        n <= x.len(),
        n <= y.len(),
        forall|i: int| 0 <= i < n ==> x[i] == y[i],
        n > 0 ==> x[n - 1] != ' ' || (n < x.len() && n < y.len() && x[n as int] == y[n as int]),
    ensures
        tightened(x, n) == tightened(y, n),
    decreases n,
{
    if n > 0 {
        lemma_tightened_same_prefix(x, y, (n - 1) as nat);
    }
}

proof fn lemma_tightened_same_suffix(u: Seq<char>, v: Seq<char>, j: nat)
    requires
        j <= v.len(),
        u.len() > 0 ==> u.last() != ' ',
        v.len() > 0 ==> v[0] != ' ',
        (u.len() > 0 && is_punctuation(u.last())) || (v.len() > 0 && is_punctuation(v[0])),
    ensures
        tightened(u + seq![' '] + v, u.len() + 1 + j) == tightened(u + v, u.len() + j),
    decreases j,
{
    let x = u + seq![' '] + v;
    let y = u + v;
    let n = u.len();
    if j == 0 {
        lemma_tightened_same_prefix(x, y, n);
        assert(x[n as int] == ' ');
        if n > 0 {
            assert(x[n - 1] == u.last());
        }
        if v.len() > 0 {
            assert(x[(n + 1) as int] == v[0]);
        }
    } else {
        lemma_tightened_same_suffix(u, v, (j - 1) as nat);
        assert(x[(n + j) as int] == v[j - 1]);
        assert(y[n + j - 1] == v[j - 1]);
        if j > 1 {
            assert(x[n + j - 1] == v[j - 2]);
            assert(y[n + j - 2] == v[j - 2]);
        }
        if j < v.len() {
            assert(x[(n + j + 1) as int] == v[j as int]);
            assert(y[(n + j) as int] == v[j as int]);
        }
    }
}

/// A text without the spaces that have punctuation next to them.
pub open spec fn tight(s: Seq<char>) -> Seq<char> {
    tightened(s, s.len())
}

/// A single space next to punctuation does not matter.
proof fn lemma_gap(u: Seq<char>, v: Seq<char>)
    requires
        u.len() > 0 ==> u.last() != ' ',
        v.len() > 0 ==> v[0] != ' ',
        (u.len() > 0 && is_punctuation(u.last())) || (v.len() > 0 && is_punctuation(v[0])),
    ensures
        tight(u + (seq![' '] + v)) == tight(u + v),
{
    lemma_tightened_same_suffix(u, v, v.len());
    assert(u + (seq![' '] + v) =~= u + seq![' '] + v);
}

/// What holds of the text written so far: `spaced` tells how it ends, and in a struct body what
/// comes before a field is punctuation.
spec fn is_consistent(out: Seq<char>, bodies: Bodies, place: Place, spaced: bool) -> bool {
    &&& spaced <==> out.len() == 0 || out.last() == ' '
    &&& inside(bodies) && !(place is Field) && !spaced ==> is_punctuation(out.last())
}

proof fn lemma_stays_consistent(
    s: Seq<char>,
    out: Seq<char>,
    bodies: Bodies,
    place: Place,
    spaced: bool,
)
    requires
        is_consistent(out, bodies, place, spaced),
    ensures
        ({
            let (d, a, sp) = space_state(s, bodies, place, spaced);
            is_consistent(out + unified(s, bodies, place, spaced), d, a, sp)
        }),
    decreases s.len(),
{
    let whole = out + unified(s, bodies, place, spaced);
    if s.len() == 0 {
        assert(whole =~= out);
    } else {
        lemma_space_length(s);
        let c = s[0];
        let t = s.drop_first();
        if c == '{' {
            let u = unified(t, opened(bodies), Place::Start, false);
            let so_far = (out + owed(place)) + seq![c];
            lemma_append(out, owed(place), seq![c] + u);
            lemma_append(out + owed(place), seq![c], u);
            lemma_stays_consistent(t, so_far, opened(bodies), Place::Start, false);
        } else if c == '}' {
            let inner = closed(bodies);
            lemma_append(out, seq![c], unified(t, inner, after_body(inner), false));
            lemma_stays_consistent(t, out + seq![c], inner, after_body(inner), false);
        } else if inside(bodies) && c == ',' {
            if place is Field {
                lemma_append(out, seq![c], unified(t, bodies, Place::Start, false));
                lemma_stays_consistent(t, out + seq![c], bodies, Place::Start, false);
            } else {
                lemma_stays_consistent(t, out, bodies, after_comma(place), spaced);
            }
        } else if is_space(c) {
            let rest = after_spaces(s);
            let next = after_run(s, bodies, place);
            if ends_field(s, bodies, place) {
                lemma_append(out, seq![','], unified(rest, bodies, Place::Start, false));
                lemma_stays_consistent(rest, out + seq![','], bodies, Place::Start, false);
            } else if !spaced {
                lemma_append(out, seq![' '], unified(rest, bodies, next, true));
                lemma_stays_consistent(rest, out + seq![' '], bodies, next, true);
            } else {
                lemma_stays_consistent(rest, out, bodies, next, true);
            }
        } else {
            let (inner, next) = (counted(bodies, c), in_field(bodies, place));
            let u = unified(t, inner, next, false);
            let so_far = if is_continuation(c) {
                out + seq![c]
            } else {
                (out + owed(place)) + seq![c]
            };
            lemma_append(out, owed(place), seq![c] + u);
            lemma_append(out + owed(place), seq![c], u);
            lemma_append(out, seq![c], u);
            lemma_stays_consistent(t, so_far, inner, next, false);
        }
    }
}

/// The state after a text from the beginning.
pub(crate) open spec fn state_of(bodies: Bodies, s: Seq<char>) -> (Bodies, Place, bool) {
    space_state(s, bodies, Place::Start, true)
}

pub(crate) open spec fn unified_text(bodies: Bodies, s: Seq<char>) -> Seq<char> {
    unified(s, bodies, Place::Start, true)
}

/// A normalized text, where `bodies` tells whether parentheses are counted.
pub(crate) open spec fn normalized_from(bodies: Bodies, s: Seq<char>) -> Seq<char> {
    trimmed(tight(unified_text(bodies, s)))
}

proof fn lemma_consistent(bodies: Bodies, s: Seq<char>)
    ensures
        ({
            let (b, p, sp) = state_of(bodies, s);
            is_consistent(unified_text(bodies, s), b, p, sp)
        }),
{
    lemma_stays_consistent(s, seq![], bodies, Place::Start, true);
    assert(seq![] + unified_text(bodies, s) =~= unified_text(bodies, s));
}

/// Spaces before `r` are those of `r` too.
proof fn lemma_spaces_before(w: Seq<char>, r: Seq<char>)
    requires
        all_space(w),
    ensures
        space_length(w + r) == w.len() + space_length(r),
        after_spaces(w + r) == after_spaces(r),
{
    lemma_space_length(w);
    lemma_space_length_extended(w, r);
    lemma_space_length(r);
    assert(after_spaces(w + r) =~= after_spaces(r));
}

/// Spaces before a field do not matter.
pub(crate) proof fn lemma_padding(bodies: Bodies, s: Seq<char>, w: Seq<char>, r: Seq<char>)
    requires
        s.len() > 0,
        !is_space(s.last()),
        all_space(w),
        inside(state_of(bodies, s).0),
        state_of(bodies, s).1 is Start || state_of(bodies, s).1 is AfterSeparator,
    ensures
        normalized_from(bodies, s + (w + r)) == normalized_from(bodies, s + r),
{
    let (d, a, sp) = state_of(bodies, s);
    let u = unified_text(bodies, s);
    lemma_unified_split(s, w + r, bodies, Place::Start, true);
    lemma_unified_split(s, r, bodies, Place::Start, true);
    lemma_consistent(bodies, s);
    lemma_spaces_before(w, r);
    lemma_space_length(r);
    if w.len() == 0 {
        assert(w + r =~= r);
    } else {
        assert((w + r)[0] == w[0]);
        assert(after_run(w + r, d, a) == a && after_run(r, d, a) == a);
        let x = unified(after_spaces(r), d, a, true);
        lemma_spaced(after_spaces(r), d, a);
        if r.len() > 0 && is_space(r[0]) {
        } else {
            assert(after_spaces(r) =~= r);
            if !sp {
                lemma_gap(u, x);
            }
        }
    }
}

proof fn lemma_last_kept(s: Seq<char>, bodies: Bodies, place: Place, spaced: bool)
    requires
        s.len() > 0,
        !is_space(s.last()),
        s.last() != ',',
    ensures
        unified(s, bodies, place, spaced).len() > 0,
        unified(s, bodies, place, spaced).last() == s.last(),
    decreases s.len(),
{
    let c = s[0];
    let t = s.drop_first();
    if s.len() == 1 {
        assert(t =~= seq![]);
        assert(forall|b: Bodies, p: Place, sp: bool| (#[trigger] unified(t, b, p, sp)) =~= seq![]);
        assert(s.last() == c);
        if c == '{' {
            let u = seq![c] + unified(t, opened(bodies), Place::Start, false);
            assert(u.last() == c);
            lemma_append(owed(place), u, seq![]);
        } else if c == '}' {
            let u = seq![c] + unified(t, closed(bodies), after_body(closed(bodies)), false);
            assert(u.last() == c);
        } else {
            let u = seq![c] + unified(t, counted(bodies, c), in_field(bodies, place), false);
            assert(u.last() == c);
            lemma_append(owed(place), u, seq![]);
        }
    } else {
        assert(t.last() == s.last());
        if c == '{' {
            let u = unified(t, opened(bodies), Place::Start, false);
            lemma_last_kept(t, opened(bodies), Place::Start, false);
            lemma_append(seq![c], u, seq![]);
            lemma_append(owed(place), seq![c] + u, seq![]);
        } else if c == '}' {
            let inner = closed(bodies);
            lemma_last_kept(t, inner, after_body(inner), false);
            lemma_append(seq![c], unified(t, inner, after_body(inner), false), seq![]);
        } else if inside(bodies) && c == ',' {
            lemma_last_kept(t, bodies, after_comma(place), spaced && !(place is Field));
            lemma_append(seq![c], unified(t, bodies, Place::Start, false), seq![]);
        } else if is_space(c) {
            lemma_space_length(s);
            let n = space_length(s);
            if n == s.len() {
                assert(is_space(s[s.len() - 1]));
            }
            let rest = after_spaces(s);
            let next = after_run(s, bodies, place);
            assert(rest.last() == s.last());
            if ends_field(s, bodies, place) {
                lemma_last_kept(rest, bodies, Place::Start, false);
                lemma_append(seq![','], unified(rest, bodies, Place::Start, false), seq![]);
            } else {
                lemma_last_kept(rest, bodies, next, true);
                lemma_append(seq![' '], unified(rest, bodies, next, true), seq![]);
            }
        } else {
            let (inner, next) = (counted(bodies, c), in_field(bodies, place));
            let u = unified(t, inner, next, false);
            lemma_last_kept(t, inner, next, false);
            lemma_append(seq![c], u, seq![]);
            lemma_append(owed(place), seq![c] + u, seq![]);
        }
    }
}

/// Where a text ends that does not end with a space or a comma.
proof fn lemma_last_state(s: Seq<char>, bodies: Bodies, place: Place, spaced: bool)
    requires
        s.len() > 0,
        !is_space(s.last()),
        s.last() != ',',
    ensures
        !space_state(s, bodies, place, spaced).2,
        ({
            let (b, p, _) = space_state(s, bodies, place, spaced);
            &&& s.last() == '{' ==> inside(b) && p is Start
            &&& s.last() == '}' && inside(b) ==> p is AfterBody
            &&& s.last() != '{' && s.last() != '}' && inside(b) ==> p is Field
        }),
    decreases s.len(),
{
    let c = s[0];
    let t = s.drop_first();
    if s.len() == 1 {
        assert(t =~= seq![]);
        assert(forall|b: Bodies, p: Place, sp: bool| #[trigger]
            space_state(t, b, p, sp) == (b, p, sp));
    } else {
        assert(t.last() == s.last());
        if c == '{' {
            lemma_last_state(t, opened(bodies), Place::Start, false);
        } else if c == '}' {
            let inner = closed(bodies);
            lemma_last_state(t, inner, after_body(inner), false);
        } else if inside(bodies) && c == ',' {
            lemma_last_state(t, bodies, after_comma(place), spaced && !(place is Field));
        } else if is_space(c) {
            lemma_space_length(s);
            let n = space_length(s);
            if n == s.len() {
                assert(is_space(s[s.len() - 1]));
            }
            let rest = after_spaces(s);
            let next = after_run(s, bodies, place);
            assert(rest.last() == s.last());
            if ends_field(s, bodies, place) {
                lemma_last_state(rest, bodies, Place::Start, false);
            } else {
                lemma_last_state(rest, bodies, next, true);
            }
        } else {
            let (inner, next) = (counted(bodies, c), in_field(bodies, place));
            lemma_last_state(t, inner, next, false);
        }
    }
}

/// The last character stays the last.
pub(crate) proof fn lemma_unified_last(s: Seq<char>, bodies: Bodies, place: Place, spaced: bool)
    requires
        s.len() > 0,
        !is_space(s.last()),
        s.last() != ',',
    ensures
        unified(s, bodies, place, spaced).len() > 0,
        unified(s, bodies, place, spaced).last() == s.last(),
        !space_state(s, bodies, place, spaced).2,
        ({
            let (b, p, _) = space_state(s, bodies, place, spaced);
            &&& s.last() == '{' ==> inside(b) && p is Start
            &&& s.last() == '}' && inside(b) ==> p is AfterBody
            &&& s.last() != '{' && s.last() != '}' && inside(b) ==> p is Field
        }),
{
    lemma_last_kept(s, bodies, place, spaced);
    lemma_last_state(s, bodies, place, spaced);
}

/// After a comma no field has begun, or its separator is owed.
proof fn lemma_after_comma(s: Seq<char>, bodies: Bodies, place: Place, spaced: bool)
    requires
        s.len() > 0,
        s.last() == ',',
        inside(space_state(s, bodies, place, spaced).0),
    ensures
        ({
            let p = space_state(s, bodies, place, spaced).1;
            p is Start || p is AfterSeparator
        }),
    decreases s.len(),
{
    let c = s[0];
    let t = s.drop_first();
    if s.len() == 1 {
        reveal_with_fuel(space_state, 2);
    } else {
        assert(t.last() == s.last());
        if c == '{' {
            lemma_after_comma(t, opened(bodies), Place::Start, false);
        } else if c == '}' {
            lemma_after_comma(t, closed(bodies), after_body(closed(bodies)), false);
        } else if inside(bodies) && c == ',' {
            lemma_after_comma(t, bodies, after_comma(place), spaced && !(place is Field));
        } else if is_space(c) {
            lemma_space_length(s);
            let n = space_length(s);
            if n == s.len() {
                assert(is_space(s[s.len() - 1]));
            }
            let rest = after_spaces(s);
            assert(rest.last() == s.last());
            if ends_field(s, bodies, place) {
                lemma_after_comma(rest, bodies, Place::Start, false);
            } else {
                lemma_after_comma(rest, bodies, after_run(s, bodies, place), true);
            }
        } else {
            lemma_after_comma(t, counted(bodies, c), in_field(bodies, place), false);
        }
    }
}

proof fn lemma_has_newline_concat(a: Seq<char>, b: Seq<char>)
    ensures
        has_newline(a + b) == (has_newline(a) || has_newline(b)),
{
    if has_newline(a) {
        let i = choose|i: int| 0 <= i < a.len() && is_newline(#[trigger] a[i]);
        assert((a + b)[i] == a[i]);
    }
    if has_newline(b) {
        let i = choose|i: int| 0 <= i < b.len() && is_newline(#[trigger] b[i]);
        assert((a + b)[a.len() + i] == b[i]);
    }
    if has_newline(a + b) {
        let i = choose|i: int| 0 <= i < (a + b).len() && is_newline(#[trigger] (a + b)[i]);
        if i < a.len() {
            assert(is_newline(a[i]));
        } else {
            assert(is_newline(b[i - a.len()]));
        }
    }
}

/// Blanks after other spaces do not matter.
proof fn lemma_wider_run(
    s: Seq<char>,
    w: Seq<char>,
    r: Seq<char>,
    bodies: Bodies,
    place: Place,
    spaced: bool,
)
    requires
        s.len() > 0,
        is_space(s.last()),
        all_blank(w),
    ensures
        unified(s + (w + r), bodies, place, spaced) == unified(
            s + r,
            bodies,
            place,
            spaced,
        ),
    decreases s.len(),
{
    let x = s + (w + r);
    let y = s + r;
    let c = s[0];
    let t = s.drop_first();
    assert(x[0] == c && y[0] == c);
    assert(x.drop_first() =~= t + (w + r));
    assert(y.drop_first() =~= t + r);
    if is_space(c) {
        lemma_space_length(s);
        lemma_space_length_extended(s, w + r);
        lemma_space_length_extended(s, r);
        let n = space_length(s);
        if n == s.len() {
            assert(all_space(w));
            lemma_spaces_before(w, r);
            lemma_space_length(r);
            let k = space_length(r);
            assert(after_spaces(x) =~= after_spaces(r));
            assert(after_spaces(y) =~= after_spaces(r));
            assert(x.take(space_length(x) as int) =~= s + (w + r.take(k as int)));
            assert(y.take(space_length(y) as int) =~= s + r.take(k as int));
            lemma_has_newline_concat(s, w + r.take(k as int));
            lemma_has_newline_concat(w, r.take(k as int));
            lemma_has_newline_concat(s, r.take(k as int));
            assert(!has_newline(w));
        } else {
            let rest = after_spaces(s);
            assert(after_spaces(x) =~= rest + (w + r));
            assert(after_spaces(y) =~= rest + r);
            assert(x.take(n as int) =~= s.take(n as int));
            assert(y.take(n as int) =~= s.take(n as int));
            assert(after_spaces(x)[0] == rest[0]);
            assert(after_spaces(y)[0] == rest[0]);
            assert(rest.last() == s.last());
            if ends_field(x, bodies, place) {
                lemma_wider_run(rest, w, r, bodies, Place::Start, false);
            } else {
                lemma_wider_run(rest, w, r, bodies, after_run(x, bodies, place), true);
            }
        }
    } else {
        assert(t.len() > 0);
        assert(t.last() == s.last());
        if c == '{' {
            lemma_wider_run(t, w, r, opened(bodies), Place::Start, false);
        } else if c == '}' {
            lemma_wider_run(t, w, r, closed(bodies), after_body(closed(bodies)), false);
        } else if inside(bodies) && c == ',' {
            lemma_wider_run(t, w, r, bodies, Place::Start, false);
            lemma_wider_run(t, w, r, bodies, after_comma(place), spaced);
        } else {
            lemma_wider_run(t, w, r, counted(bodies, c), in_field(bodies, place), false);
        }
    }
}

// Both together.
/// The open bodies after a text.
pub open spec fn bodies_after(s: Seq<char>, bodies: Bodies) -> Bodies
    decreases s.len(),
{
    if s.len() == 0 {
        bodies
    } else if s[0] == '{' {
        bodies_after(s.drop_first(), opened(bodies))
    } else if s[0] == '}' {
        bodies_after(s.drop_first(), closed(bodies))
    } else {
        bodies_after(s.drop_first(), counted(bodies, s[0]))
    }
}

/// A text without braces and parentheses.
pub open spec fn has_no_brackets(s: Seq<char>) -> bool {
    forall|i: int|
        0 <= i < s.len() ==> (#[trigger] s[i]) != '{' && s[i] != '}' && s[i] != '(' && s[i] != ')'
}

pub(crate) proof fn lemma_bodies_concat(a: Seq<char>, b: Seq<char>, bodies: Bodies)
    ensures
        bodies_after(a + b, bodies) == bodies_after(b, bodies_after(a, bodies)),
    decreases a.len(),
{
    if a.len() == 0 {
        assert(a + b =~= b);
    } else {
        assert((a + b).drop_first() =~= a.drop_first() + b);
        if a[0] == '{' {
            lemma_bodies_concat(a.drop_first(), b, opened(bodies));
        } else if a[0] == '}' {
            lemma_bodies_concat(a.drop_first(), b, closed(bodies));
        } else {
            lemma_bodies_concat(a.drop_first(), b, counted(bodies, a[0]));
        }
    }
}

/// Text without brackets leaves the bodies as they are, and does not matter to whether
/// parentheses are closed.
pub(crate) proof fn lemma_no_brackets(s: Seq<char>, q: Seq<char>, bodies: Bodies)
    requires
        has_no_brackets(s),
    ensures
        bodies_after(s, bodies) == bodies,
        bodies_after(s + q, bodies) == bodies_after(q, bodies),
        closes_parentheses(s + q, bodies) == closes_parentheses(q, bodies),
    decreases s.len(),
{
    if s.len() == 0 {
        assert(s + q =~= q);
    } else {
        let t = s.drop_first();
        assert((s + q)[0] == s[0]);
        assert((s + q).drop_first() =~= t + q);
        assert(has_no_brackets(t)) by {
            assert forall|i: int| 0 <= i < t.len() implies (#[trigger] t[i]) != '{' && t[i] != '}'
                && t[i] != '(' && t[i] != ')' by {
                assert(t[i] == s[i + 1]);
            }
        }
        lemma_no_brackets(t, q, bodies);
    }
}

/// Whether parentheses are closed in `p + q` depends on `q` only in so far as it closes them.
proof fn lemma_closes_alike(p: Seq<char>, q1: Seq<char>, q2: Seq<char>, bodies: Bodies)
    requires
        forall|b: Bodies| #[trigger] closes_parentheses(q1, b) == closes_parentheses(q2, b),
    ensures
        closes_parentheses(p + q1, bodies) == closes_parentheses(p + q2, bodies),
    decreases p.len(),
{
    if p.len() == 0 {
        assert(p + q1 =~= q1);
        assert(p + q2 =~= q2);
    } else {
        let t = p.drop_first();
        assert((p + q1).drop_first() =~= t + q1);
        assert((p + q2).drop_first() =~= t + q2);
        lemma_closes_alike(t, q1, q2, opened(bodies));
        lemma_closes_alike(t, q1, q2, closed(bodies));
        lemma_closes_alike(t, q1, q2, counted(bodies, p[0]));
    }
}

/// Text without brackets does not matter to what is before a text.
pub(crate) proof fn lemma_before_alike(p: Seq<char>, x: Seq<char>, r: Seq<char>)
    requires
        has_no_brackets(x),
    ensures
        before(p + (x + r)) == before(p + r),
{
    assert forall|b: Bodies| #[trigger] closes_parentheses(x + r, b) == closes_parentheses(r, b) by {
        lemma_no_brackets(x, r, b);
    }
    lemma_closes_alike(p, x + r, r, outside());
}

proof fn lemma_label_has_no_brackets(l: Seq<char>, b: Seq<char>)
    requires
        is_identifier(l),
        all_blank(b),
    ensures
        has_no_brackets(label(l, b)),
{
    let s = label(l, b);
    assert forall|i: int| 0 <= i < s.len() implies (#[trigger] s[i]) != '{' && s[i] != '}' && s[i]
        != '(' && s[i] != ')' by {
        if i < l.len() {
            assert(in_identifier(l[i]));
        } else if i < l.len() + b.len() {
            assert(is_blank(b[i - l.len()]));
        }
    }
}

pub(crate) proof fn lemma_spaces_have_no_brackets(w: Seq<char>)
    requires
        all_space(w),
    ensures
        has_no_brackets(w),
{
    assert forall|i: int| 0 <= i < w.len() implies (#[trigger] w[i]) != '{' && w[i] != '}' && w[i]
        != '(' && w[i] != ')' by {
        assert(is_space(w[i]));
    }
}

/// A label, and an identifier, hold no brackets.
proof fn lemma_brackets_after_identifier(s: Seq<char>, bodies: Bodies)
    requires
        s.len() > 0,
        begins_identifier(s[0]),
    ensures
        ({
            let rest = s.skip(identifier_length(s) as int);
            &&& has_no_brackets(s.take(identifier_length(s) as int))
            &&& bodies_after(rest, bodies) == bodies_after(s, bodies)
            &&& closes_parentheses(rest, bodies) == closes_parentheses(s, bodies)
        }),
        begins_with_label(s) ==> {
            let rest = after_identifier(s).drop_first();
            &&& bodies_after(rest, bodies) == bodies_after(s, bodies)
            &&& closes_parentheses(rest, bodies) == closes_parentheses(s, bodies)
        },
{
    lemma_identifier_length(s);
    let n = identifier_length(s);
    let rest = s.skip(n as int);
    let name = s.take(n as int);
    lemma_blank_length(rest);
    let m = blank_length(rest);
    assert(s =~= name + rest);
    assert(has_no_brackets(name)) by {
        assert forall|i: int| 0 <= i < name.len() implies (#[trigger] name[i]) != '{' && name[i]
            != '}' && name[i] != '(' && name[i] != ')' by {
            assert(in_identifier(s[i]));
        }
    }
    lemma_no_brackets(name, rest, bodies);
    if begins_with_label(s) {
        let head = rest.take(m as int + 1);
        let tail = after_identifier(s).drop_first();
        assert(rest =~= head + tail);
        assert(rest[m as int] == after_identifier(s)[0]);
        assert forall|i: int| 0 <= i < head.len() implies (#[trigger] head[i]) != '{' && head[i]
            != '}' && head[i] != '(' && head[i] != ')' by {
            assert(head[i] == rest[i]);
        }
        lemma_no_brackets(head, tail, bodies);
    }
}

/// Labels hold no brackets: the open bodies are the same with and without them.
proof fn lemma_bodies_of_labels(s: Seq<char>, bodies: Bodies, start: bool)
    ensures
        label_state(s, bodies, start).0 == bodies_after(s, bodies),
        bodies_after(unlabeled(s, bodies, start), bodies) == bodies_after(s, bodies),
    decreases s.len(),
{
    lemma_after_identifier_is_shorter(s);
    if s.len() > 0 {
        let c = s[0];
        let t = s.drop_first();
        if c == '{' {
            lemma_bodies_of_labels(t, opened(bodies), true);
            let u = unlabeled(t, opened(bodies), true);
            assert((seq![c] + u).drop_first() =~= u);
        } else if c == '}' {
            lemma_bodies_of_labels(t, closed(bodies), false);
            let u = unlabeled(t, closed(bodies), false);
            assert((seq![c] + u).drop_first() =~= u);
        } else if between_fields(bodies) && (c == ',' || is_newline(c)) {
            lemma_bodies_of_labels(t, bodies, true);
            let u = unlabeled(t, bodies, true);
            assert((seq![c] + u).drop_first() =~= u);
        } else if inside(bodies) && start && begins_identifier(c) {
            lemma_brackets_after_identifier(s, bodies);
            if begins_with_label(s) {
                lemma_bodies_of_labels(after_identifier(s).drop_first(), bodies, false);
            } else {
                let n = identifier_length(s) as int;
                lemma_bodies_of_labels(s.skip(n), bodies, false);
                lemma_no_brackets(s.take(n), unlabeled(s.skip(n), bodies, false), bodies);
            }
        } else {
            let next = start && (!inside(bodies) || white_space(c));
            lemma_bodies_of_labels(t, counted(bodies, c), next);
            let u = unlabeled(t, counted(bodies, c), next);
            assert((seq![c] + u).drop_first() =~= u);
        }
    }
}

/// Parentheses are closed in a text if they are in the text without its labels.
proof fn lemma_closes_without_labels(s: Seq<char>, bodies: Bodies, start: bool, around: Bodies)
    ensures
        closes_parentheses(unlabeled(s, bodies, start), around) == closes_parentheses(s, around),
    decreases s.len(),
{
    lemma_after_identifier_is_shorter(s);
    if s.len() > 0 {
        let c = s[0];
        let t = s.drop_first();
        if c == '{' {
            let u = unlabeled(t, opened(bodies), true);
            lemma_closes_without_labels(t, opened(bodies), true, opened(around));
            assert((seq![c] + u).drop_first() =~= u);
        } else if c == '}' {
            let u = unlabeled(t, closed(bodies), false);
            lemma_closes_without_labels(t, closed(bodies), false, closed(around));
            assert((seq![c] + u).drop_first() =~= u);
        } else if between_fields(bodies) && (c == ',' || is_newline(c)) {
            let u = unlabeled(t, bodies, true);
            lemma_closes_without_labels(t, bodies, true, counted(around, c));
            assert((seq![c] + u).drop_first() =~= u);
        } else if inside(bodies) && start && begins_identifier(c) {
            lemma_brackets_after_identifier(s, around);
            if begins_with_label(s) {
                lemma_closes_without_labels(
                    after_identifier(s).drop_first(),
                    bodies,
                    false,
                    around,
                );
            } else {
                let n = identifier_length(s) as int;
                lemma_closes_without_labels(s.skip(n), bodies, false, around);
                lemma_no_brackets(s.take(n), unlabeled(s.skip(n), bodies, false), around);
            }
        } else {
            let next = start && (!inside(bodies) || white_space(c));
            let u = unlabeled(t, counted(bodies, c), next);
            lemma_closes_without_labels(t, counted(bodies, c), next, counted(around, c));
            assert((seq![c] + u).drop_first() =~= u);
        }
    }
}

/// The canonical form, by the bodies before the text.
pub(crate) proof fn lemma_canonical(s: Seq<char>)
    ensures
        before(stripped(s)) == before(s),
        canonical(s) == normalized_from(before(s), stripped(s)),
{
    lemma_closes_without_labels(s, before(s), false, outside());
}

pub(crate) proof fn lemma_bodies_of_spaces(
    s: Seq<char>,
    bodies: Bodies,
    place: Place,
    spaced: bool,
)
    ensures
        space_state(s, bodies, place, spaced).0 == bodies_after(s, bodies),
    decreases s.len(),
{
    if s.len() > 0 {
        lemma_space_length(s);
        let c = s[0];
        let t = s.drop_first();
        if c == '{' {
            lemma_bodies_of_spaces(t, opened(bodies), Place::Start, false);
        } else if c == '}' {
            lemma_bodies_of_spaces(t, closed(bodies), after_body(closed(bodies)), false);
        } else if inside(bodies) && c == ',' {
            lemma_bodies_of_spaces(
                t,
                bodies,
                after_comma(place),
                spaced && !(place is Field),
            );
        } else if is_space(c) {
            let n = space_length(s) as int;
            let run = s.take(n);
            assert(s =~= run + s.skip(n));
            assert(all_space(run));
            lemma_spaces_have_no_brackets(run);
            lemma_no_brackets(run, s.skip(n), bodies);
            lemma_bodies_of_spaces(after_spaces(s), bodies, Place::Start, false);
            lemma_bodies_of_spaces(after_spaces(s), bodies, after_run(s, bodies, place), true);
        } else {
            lemma_bodies_of_spaces(t, counted(bodies, c), in_field(bodies, place), false);
        }
    }
}

/// The last character is kept, unless it may end a label.
proof fn lemma_unlabeled_last(s: Seq<char>, bodies: Bodies, start: bool)
    requires
        s.len() > 0,
        s.last() != ':',
    ensures
        unlabeled(s, bodies, start).len() > 0,
        unlabeled(s, bodies, start).last() == s.last(),
    decreases s.len(),
{
    lemma_after_identifier_is_shorter(s);
    let c = s[0];
    let t = s.drop_first();
    if !(c == '{' || c == '}' || (between_fields(bodies) && (c == ',' || is_newline(c)))) && inside(bodies) && start
        && begins_identifier(c) {
        let n = identifier_length(s) as int;
        let rest = s.skip(n);
        lemma_blank_length(rest);
        if begins_with_label(s) {
            let after = after_identifier(s);
            assert(after.last() == s.last());
            assert(after.drop_first().len() > 0);
            assert(after.drop_first().last() == s.last());
            lemma_unlabeled_last(after.drop_first(), bodies, false);
        } else if rest.len() > 0 {
            assert(rest.last() == s.last());
            lemma_unlabeled_last(rest, bodies, false);
        } else {
            assert(unlabeled(rest, bodies, false) =~= seq![]);
            assert(unlabeled(s, bodies, start) =~= s);
        }
    } else if t.len() > 0 {
        assert(t.last() == s.last());
        lemma_unlabeled_last(t, opened(bodies), true);
        lemma_unlabeled_last(t, closed(bodies), false);
        lemma_unlabeled_last(t, bodies, true);
        lemma_unlabeled_last(t, counted(bodies, c), start && (!inside(bodies) || white_space(c)));
    } else {
        reveal_with_fuel(unlabeled, 2);
        assert(unlabeled(s, bodies, start) =~= s);
    }
}

/// Spaces are kept, and a line break among them makes a field begin.
pub(crate) proof fn lemma_unlabeled_spaces(w: Seq<char>, q: Seq<char>, bodies: Bodies, start: bool)
    requires
        all_space(w),
        inside(bodies),
    ensures
        unlabeled(w + q, bodies, start) == w + unlabeled(q, bodies, start || (between_fields(bodies) && has_newline(w))),
    decreases w.len(),
{
    if w.len() == 0 {
        assert(w + q =~= q);
        assert(w + unlabeled(q, bodies, start) =~= unlabeled(q, bodies, start));
    } else {
        let c = w[0];
        let v = w.drop_first();
        assert((w + q)[0] == c);
        assert((w + q).drop_first() =~= v + q);
        assert(all_space(v)) by {
            assert forall|i: int| 0 <= i < v.len() implies is_space(#[trigger] v[i]) by {
                assert(v[i] == w[i + 1]);
            }
        }
        assert(w =~= seq![c] + v);
        lemma_has_newline_concat(seq![c], v);
        if between_fields(bodies) && is_newline(c) {
            assert(is_newline(seq![c][0]));
            lemma_unlabeled_spaces(v, q, bodies, true);
        } else {
            
            lemma_unlabeled_spaces(v, q, bodies, start);
        }
        assert(unlabeled(w + q, bodies, start) =~= w + unlabeled(q, bodies, start || (between_fields(bodies) && has_newline(w))));
    }
}

/// What is kept of `p` does not depend on what follows, if that is a space, a comma or a closing
/// brace, and no colon comes after blanks.
#[verifier::rlimit(40)]
pub(crate) proof fn lemma_split_before(p: Seq<char>, q: Seq<char>, bodies: Bodies, start: bool)
    requires
        q.len() > 0,
        is_space(q[0]) || q[0] == ',' || q[0] == '}',
        blank_length(q) < q.len() ==> q[blank_length(q) as int] != ':',
    ensures
        unlabeled(p + q, bodies, start) == unlabeled(p, bodies, start) + unlabeled(
            q,
            label_state(p, bodies, start).0,
            label_state(p, bodies, start).1,
        ),
    decreases p.len(),
{
    lemma_after_identifier_is_shorter(p);
    let (d, st) = label_state(p, bodies, start);
    if p.len() == 0 {
        assert(p + q =~= q);
        assert(unlabeled(p, bodies, start) + unlabeled(q, d, st) =~= unlabeled(q, d, st));
    } else {
        let c = p[0];
        assert((p + q)[0] == c);
        let here = unlabeled(p + q, bodies, start);
        if !(c == '{' || c == '}' || (between_fields(bodies) && (c == ',' || is_newline(c)))) && inside(bodies) && start
            && begins_identifier(c) {
            let n = identifier_length(p);
            lemma_identifier_length(p);
            lemma_identifier_length_extended(p, q);
            let rest = p.skip(n as int);
            assert((p + q).skip(n as int) =~= rest + q);
            lemma_blank_length(rest);
            lemma_blank_length(q);
            lemma_blank_length_extended(rest, q);
            let m = blank_length(rest);
            let after = after_identifier(p);
            if m == rest.len() {
                let k = blank_length(q) as int;
                assert((rest + q).skip((m + k) as int) =~= q.skip(k));
                assert(after_identifier(p + q) == q.skip(k));
                assert(q.skip(k).len() > 0 ==> q.skip(k)[0] == q[k]);
                assert(!begins_with_label(p + q));
            } else {
                assert(after_identifier(p + q) =~= after + q) by {
                    assert((rest + q).skip(m as int) =~= rest.skip(m as int) + q);
                }
                assert((after + q)[0] == after[0]);
                if after.len() > 1 {
                    assert((after + q)[1] == after[1]);
                } else {
                    assert((after + q)[1] == q[0]);
                }
            }
            assert(begins_with_label(p + q) == begins_with_label(p));
            if begins_with_label(p) {
                let t = after.drop_first();
                assert((after + q).drop_first() =~= t + q);
                lemma_split_before(t, q, bodies, false);
            } else {
                lemma_split_before(rest, q, bodies, false);
                assert((p + q).take(n as int) =~= p.take(n as int));
                assert(here =~= unlabeled(p, bodies, start) + unlabeled(q, d, st));
            }
        } else {
            let t = p.drop_first();
            assert((p + q).drop_first() =~= t + q);
            if c == '{' {
                lemma_split_before(t, q, opened(bodies), true);
            } else if c == '}' {
                lemma_split_before(t, q, closed(bodies), false);
            } else if between_fields(bodies) && (c == ',' || is_newline(c)) {
                lemma_split_before(t, q, bodies, true);
            } else {
                lemma_split_before(t, q, counted(bodies, c), start && (!inside(bodies) || white_space(c)));
            }
            assert(here =~= unlabeled(p, bodies, start) + unlabeled(q, d, st));
        }
    }
}

/// Renaming a field label does not change what is left of a text without its labels.
pub proof fn law_label_renamed(
    p: Seq<char>,
    l1: Seq<char>,
    b1: Seq<char>,
    l2: Seq<char>,
    b2: Seq<char>,
    r: Seq<char>,
)
    requires
        is_field_start(p, r),
        is_identifier(l1),
        is_identifier(l2),
        all_blank(b1),
        all_blank(b2),
        r.len() > 0 ==> r[0] != ':',
    ensures
        stripped(p + (label(l1, b1) + r)) == stripped(p + (label(l2, b2) + r)),
        canonical(p + (label(l1, b1) + r)) == canonical(p + (label(l2, b2) + r)),
{
    let b = before(p + r);
    let d = label_state(p, b, false).0;
    lemma_label_has_no_brackets(l1, b1);
    lemma_label_has_no_brackets(l2, b2);
    lemma_before_alike(p, label(l1, b1), r);
    lemma_before_alike(p, label(l2, b2), r);
    lemma_split_at_field_start(p, label(l1, b1) + r, b, false);
    lemma_split_at_field_start(p, label(l2, b2) + r, b, false);
    lemma_label_is_dropped(l1, b1, r, d);
    lemma_label_is_dropped(l2, b2, r, d);
}

/// A field label, dropped with its colon, leaves what the text without it leaves.
///
/// What follows the colon must not be a second label: of `{a : b : T` the label `a` is dropped,
/// of `{ b : T` the label `b`.
pub proof fn law_label_stripped(p: Seq<char>, l: Seq<char>, b: Seq<char>, r: Seq<char>)
    requires
        is_field_start(p, r),
        is_identifier(l),
        all_blank(b),
        r.len() > 0 ==> r[0] != ':',
        !begins_with_labeled_field(r),
    ensures
        stripped(p + (label(l, b) + r)) == stripped(p + r),
{
    let outer = before(p + r);
    let d = label_state(p, outer, false).0;
    lemma_label_has_no_brackets(l, b);
    lemma_before_alike(p, label(l, b), r);
    lemma_split_at_field_start(p, label(l, b) + r, outer, false);
    lemma_split_at_field_start(p, r, outer, false);
    lemma_label_is_dropped(l, b, r, d);
    lemma_no_label(r, d);
}

/// Outside struct bodies nothing is a label: a text without an opening brace stays as it is.
pub proof fn law_no_struct_no_label(s: Seq<char>)
    requires
        forall|i: int| 0 <= i < s.len() ==> s[i] != '{',
    ensures
        stripped(s) == s,
{
    lemma_no_struct(s, before(s));
}

/// A text without a colon has no label, and stays as it is.
pub proof fn law_no_colon_no_label(s: Seq<char>)
    requires
        forall|i: int| 0 <= i < s.len() ==> s[i] != ':',
    ensures
        stripped(s) == s,
{
    lemma_no_colon(s, before(s), false);
}

proof fn lemma_no_colon(s: Seq<char>, bodies: Bodies, start: bool)
    requires
        forall|i: int| 0 <= i < s.len() ==> s[i] != ':',
    ensures
        unlabeled(s, bodies, start) == s,
    decreases s.len(),
{
    lemma_after_identifier_is_shorter(s);
    if s.len() == 0 {
        assert(unlabeled(s, bodies, start) =~= s);
    } else {
        let c = s[0];
        let t = s.drop_first();
        assert(seq![c] + t =~= s);
        assert forall|i: int| 0 <= i < t.len() implies t[i] != ':' by {
            assert(t[i] == s[i + 1]);
        }
        if c == '{' {
            lemma_no_colon(t, opened(bodies), true);
        } else if c == '}' {
            lemma_no_colon(t, closed(bodies), false);
        } else if between_fields(bodies) && (c == ',' || is_newline(c)) {
            lemma_no_colon(t, bodies, true);
        } else if inside(bodies) && start && begins_identifier(c) {
            let n = identifier_length(s) as int;
            let rest = s.skip(n);
            lemma_blank_length(rest);
            if begins_with_label(s) {
                assert(after_identifier(s)[0] == s[n + blank_length(rest)]);
            }
            assert forall|i: int| 0 <= i < rest.len() implies rest[i] != ':' by {
                assert(rest[i] == s[i + n]);
            }
            lemma_no_colon(rest, bodies, false);
            assert(s.take(n) + rest =~= s);
        } else {
            lemma_no_colon(
                t,
                counted(bodies, c),
                start && (!inside(bodies) || white_space(c)),
            );
        }
    }
}

proof fn lemma_no_struct(s: Seq<char>, bodies: Bodies)
    requires
        forall|i: int| 0 <= i < s.len() ==> s[i] != '{',
        !inside(bodies),
    ensures
        unlabeled(s, bodies, false) == s,
    decreases s.len(),
{
    if s.len() > 0 {
        let t = s.drop_first();
        assert forall|i: int| 0 <= i < t.len() implies t[i] != '{' by {
            assert(t[i] == s[i + 1]);
        }
        lemma_no_struct(t, bodies);
        assert(s[0] != '{');
        assert(seq![s[0]] + t =~= s);
    } else {
        assert(unlabeled(s, bodies, false) =~= s);
    }
}

proof fn lemma_blanks_before_labeled_field(w: Seq<char>, r: Seq<char>)
    requires
        all_blank(w),
    ensures
        begins_with_labeled_field(w + r) == begins_with_labeled_field(r),
    decreases w.len(),
{
    if w.len() == 0 {
        assert(w + r =~= r);
    } else {
        let v = w.drop_first();
        assert((w + r)[0] == w[0]);
        assert((w + r).drop_first() =~= v + r);
        assert(is_blank(w[0]));
        assert(all_blank(v)) by {
            assert forall|i: int| 0 <= i < v.len() implies is_blank(#[trigger] v[i]) by {
                assert(v[i] == w[i + 1]);
            }
        }
        lemma_blanks_before_labeled_field(v, r);
    }
}

/// Spaces at the start of a field do not matter: blanks after other spaces, any after a brace or
/// a comma.
proof fn lemma_spaces_at_field_start(p: Seq<char>, w: Seq<char>, r: Seq<char>)
    requires
        is_field_start(p, r),
        all_space(w),
        is_space(p.last()) ==> all_blank(w),
    ensures
        canonical(p + (w + r)) == canonical(p + r),
{
    let b = before(p + r);
    let d = label_state(p, b, false).0;
    let s = unlabeled(p, b, false);
    let u = unlabeled(r, d, true);
    lemma_spaces_have_no_brackets(w);
    lemma_before_alike(p, w, r);
    lemma_canonical(p + (w + r));
    lemma_canonical(p + r);
    lemma_split_at_field_start(p, w + r, b, false);
    lemma_split_at_field_start(p, r, b, false);
    lemma_unlabeled_spaces(w, r, d, true);
    lemma_unlabeled_last(p, b, false);
    lemma_bodies_of_labels(p, b, false);
    lemma_bodies_of_spaces(s, b, Place::Start, true);
    if is_space(p.last()) {
        lemma_wider_run(s, w, u, b, Place::Start, true);
    } else {
        if p.last() == ',' {
            lemma_after_comma(s, b, Place::Start, true);
        } else {
            lemma_unified_last(s, b, Place::Start, true);
        }
        lemma_padding(b, s, w, u);
    }
}

/// A field label is ignored: a text with the label `l` before a field and the text without it
/// have the same canonical form.
///
/// What follows the colon must not be a second label: of `{a : b : T}` the label `a` is dropped,
/// of `{b : T}` the label `b`.
pub proof fn law_label_ignored(
    p: Seq<char>,
    l: Seq<char>,
    b: Seq<char>,
    w: Seq<char>,
    r: Seq<char>,
)
    requires
        is_field_start(p, r),
        is_identifier(l),
        all_blank(b),
        all_blank(w),
        r.len() > 0 ==> r[0] != ':',
        !begins_with_labeled_field(r),
    ensures
        canonical(p + (label(l, b) + (w + r))) == canonical(p + r),
{
    lemma_blanks_before_labeled_field(w, r);
    if w.len() > 0 {
        assert((w + r)[0] == w[0]);
    } else {
        assert(w + r =~= r);
    }
    assert(all_space(w));
    lemma_spaces_have_no_brackets(w);
    lemma_before_alike(p, w, r);
    law_label_stripped(p, l, b, w + r);
    lemma_spaces_at_field_start(p, w, r);
}

proof fn lemma_state_after_open_brace(p: Seq<char>, bodies: Bodies, start: bool)
    requires
        p.len() > 0,
        p.last() == '{',
    ensures
        between_fields(label_state(p, bodies, start).0),
        label_state(p, bodies, start).1,
    decreases p.len(),
{
    lemma_after_identifier_is_shorter(p);
    let c = p[0];
    let t = p.drop_first();
    if !(c == '{' || c == '}' || (between_fields(bodies) && (c == ',' || is_newline(c)))) && inside(bodies) && start
        && begins_identifier(c) {
        lemma_identifier_length(p);
        let n = identifier_length(p);
        if n == p.len() {
            assert(in_identifier(p[p.len() - 1]));
        }
        let rest = p.skip(n as int);
        lemma_blank_length(rest);
        assert(rest.last() == p.last());
        if begins_with_label(p) {
            let after = after_identifier(p);
            assert(after.last() == p.last());
            assert(after.drop_first().len() > 0);
            assert(after.drop_first().last() == p.last());
            lemma_state_after_open_brace(after.drop_first(), bodies, false);
        } else {
            lemma_state_after_open_brace(rest, bodies, false);
        }
    } else if t.len() > 0 {
        assert(t.last() == p.last());
        lemma_state_after_open_brace(t, opened(bodies), true);
        lemma_state_after_open_brace(t, closed(bodies), false);
        lemma_state_after_open_brace(t, bodies, true);
        lemma_state_after_open_brace(t, counted(bodies, c), start && (!inside(bodies) || white_space(c)));
    } else {
        reveal_with_fuel(label_state, 2);
    }
}

/// Spaces after an opening brace are ignored.
pub proof fn law_padding_after_open_brace(p: Seq<char>, w: Seq<char>, r: Seq<char>)
    requires
        p.len() > 0,
        p.last() == '{',
        all_space(w),
    ensures
        canonical(p + (w + r)) == canonical(p + r),
{
    lemma_state_after_open_brace(p, before(p + r), false);
    lemma_spaces_at_field_start(p, w, r);
}

/// Spaces before a closing brace do not matter, nor do those before an opening one outside of
/// struct bodies.
pub(crate) proof fn lemma_gap_before_brace(
    bodies: Bodies,
    s: Seq<char>,
    w: Seq<char>,
    c: char,
    u: Seq<char>,
)
    requires
        s.len() > 0,
        !is_space(s.last()),
        all_space(w),
        c == '}' || (c == '{' && !inside(state_of(bodies, s).0) && state_of(bodies, s).1 is Start),
    ensures
        normalized_from(bodies, s + (w + (seq![c] + u))) == normalized_from(
            bodies,
            s + (seq![c] + u),
        ),
{
    let v = seq![c] + u;
    let (e, a, sp) = state_of(bodies, s);
    lemma_unified_split(s, w + v, bodies, Place::Start, true);
    lemma_unified_split(s, v, bodies, Place::Start, true);
    lemma_consistent(bodies, s);
    lemma_spaces_before(w, v);
    assert(after_spaces(v) =~= v);
    if w.len() == 0 {
        assert(w + v =~= v);
    } else {
        assert((w + v)[0] == w[0]);
        assert(c == '}' ==> !begins_with_line_break(w + v));
        let x = unified(v, e, after_run(w + v, e, a), true);
        assert(x == unified(v, e, a, sp)) by {
            assert(v[0] == c);
            assert(owed(a) == owed(after_run(w + v, e, a)) || c == '}');
        }
        assert(x[0] == c);
        if !sp {
            lemma_gap(unified_text(bodies, s), x);
        }
    }
}

/// Spaces before a closing brace are ignored, except after the colon of a label, which is dropped
/// itself.
pub proof fn law_padding_before_close_brace(p: Seq<char>, w: Seq<char>, r: Seq<char>)
    requires
        p.len() > 0,
        !is_space(p.last()),
        p.last() != ':',
        inside(label_state(p, before(p + (seq!['}'] + r)), false).0),
        all_space(w),
    ensures
        canonical(p + (w + (seq!['}'] + r))) == canonical(p + (seq!['}'] + r)),
{
    let end = seq!['}'] + r;
    let b = before(p + end);
    let (d, st) = label_state(p, b, false);
    let s = unlabeled(p, b, false);
    let q = w + end;
    lemma_spaces_have_no_brackets(w);
    lemma_before_alike(p, w, end);
    lemma_canonical(p + q);
    lemma_canonical(p + end);
    assert(end[0] == '}');
    assert(q[0] == if w.len() > 0 { w[0] } else { '}' });
    lemma_blank_length(q);
    lemma_blank_length(end);
    assert(q[w.len() as int] == '}');
    if blank_length(q) < w.len() {
        assert(is_space(w[blank_length(q) as int]));
        assert(q[blank_length(q) as int] == w[blank_length(q) as int]);
    }
    lemma_split_before(p, q, b, false);
    lemma_split_before(p, end, b, false);
    lemma_unlabeled_spaces(w, end, d, st);
    let u = unlabeled(r, closed(d), false);
    assert(end.drop_first() =~= r);
    assert(unlabeled(end, d, st || (between_fields(d) && has_newline(w))) == seq!['}'] + u);
    assert(unlabeled(end, d, st) == seq!['}'] + u);
    let v = seq!['}'] + u;
    assert(stripped(p + q) == s + (w + v));
    assert(stripped(p + end) == s + v);
    lemma_unlabeled_last(p, b, false);
    lemma_gap_before_brace(b, s, w, '}', u);
}

/// What separates two fields: a comma among spaces, or spaces with a line break.
pub open spec fn is_separator(s: Seq<char>) -> bool {
    ||| all_space(s) && has_newline(s)
    ||| exists|i: int|
        0 <= i < s.len() && #[trigger] s[i] == ',' && all_space(s.take(i)) && all_space(
            s.skip(i + 1),
        )
}

pub(crate) proof fn lemma_separator_has_no_brackets(sep: Seq<char>)
    requires
        is_separator(sep),
    ensures
        has_no_brackets(sep),
{
    if all_space(sep) {
        lemma_spaces_have_no_brackets(sep);
    } else {
        let i = choose|i: int|
            0 <= i < sep.len() && #[trigger] sep[i] == ',' && all_space(sep.take(i)) && all_space(
                sep.skip(i + 1),
            );
        assert forall|j: int| 0 <= j < sep.len() implies (#[trigger] sep[j]) != '{' && sep[j]
            != '}' && sep[j] != '(' && sep[j] != ')' by {
            if j < i {
                assert(is_space(sep.take(i)[j]));
            } else if j > i {
                assert(is_space(sep.skip(i + 1)[j - i - 1]));
            }
        }
    }
}

/// A separator is kept when labels are dropped, and a field begins after it.
pub(crate) proof fn lemma_unlabeled_separator(sep: Seq<char>, q: Seq<char>, bodies: Bodies, start: bool)
    requires
        is_separator(sep),
        between_fields(bodies),
    ensures
        unlabeled(sep + q, bodies, start) == sep + unlabeled(q, bodies, true),
{
    if all_space(sep) && has_newline(sep) {
        lemma_unlabeled_spaces(sep, q, bodies, start);
    } else {
        let i = choose|i: int|
            0 <= i < sep.len() && #[trigger] sep[i] == ',' && all_space(sep.take(i)) && all_space(
                sep.skip(i + 1),
            );
        let (w1, w2) = (sep.take(i), sep.skip(i + 1));
        let rest = seq![','] + (w2 + q);
        assert(sep + q =~= w1 + rest);
        lemma_unlabeled_spaces(w1, rest, bodies, start);
        assert(rest.drop_first() =~= w2 + q);
        lemma_unlabeled_spaces(w2, q, bodies, true);
        assert(sep =~= w1 + (seq![','] + w2));
        assert(unlabeled(sep + q, bodies, start) =~= sep + unlabeled(q, bodies, true));
    }
}

/// A field follows at once.
pub open spec fn field_follows(s: Seq<char>) -> bool {
    begins_with_field(s) && !is_space(s[0])
}

/// A separator that is owed is written before a field.
proof fn lemma_owed(s: Seq<char>, bodies: Bodies, spaced: bool)
    requires
        field_follows(s),
        !is_continuation(s[0]),
        inside(bodies),
    ensures
        unified(s, bodies, Place::AfterSeparator, spaced) == seq![','] + unified(
            s,
            bodies,
            Place::Start,
            true,
        ),
{
    assert(seq![] + unified(s, bodies, Place::Start, true) =~= unified(
        s,
        bodies,
        Place::Start,
        true,
    ));
    let rest = seq![s[0]] + unified(
        s.drop_first(),
        counted(bodies, s[0]),
        Place::Field,
        false,
    );
    assert(seq![] + rest =~= rest);
    let inner = seq![s[0]] + unified(s.drop_first(), opened(bodies), Place::Start, false);
    assert(seq![] + inner =~= inner);
}

/// Every separator after a field becomes a comma.
pub(crate) proof fn lemma_normalized_separator(
    bodies: Bodies,
    s: Seq<char>,
    sep: Seq<char>,
    q: Seq<char>,
)
    requires
        s.len() > 0,
        !is_space(s.last()),
        s.last() != ',',
        s.last() != '{',
        between_fields(state_of(bodies, s).0),
        is_separator(sep),
        begins_with_field(after_spaces(q)),
        s.last() == '}' ==> !is_continuation(after_spaces(q)[0]),
    ensures
        normalized_from(bodies, s + (sep + q)) == trimmed(
            tight(
                unified_text(bodies, s) + (seq![','] + unified(
                    after_spaces(q),
                    state_of(bodies, s).0,
                    Place::Start,
                    true,
                )),
            ),
        ),
{
    let (d, a, sp) = state_of(bodies, s);
    let u = unified_text(bodies, s);
    let aq = after_spaces(q);
    let x = unified(aq, d, Place::Start, true);
    lemma_space_length(q);
    assert(aq[0] == q[space_length(q) as int]);
    assert(field_follows(aq));
    lemma_unified_last(s, bodies, Place::Start, true);
    lemma_unified_split(s, sep + q, bodies, Place::Start, true);
    lemma_spaced(aq, d, Place::Start);
    assert(x == unified(aq, d, Place::Start, false));
    assert(x.len() > 0 && x[0] != ' ');
    let cx = seq![','] + x;
    if all_space(sep) && has_newline(sep) {
        lemma_spaces_before(sep, q);
        assert(sep.len() > 0);
        assert((sep + q)[0] == sep[0]);
        let run = (sep + q).take(space_length(sep + q) as int);
        assert(run =~= sep + q.take(space_length(q) as int));
        lemma_has_newline_concat(sep, q.take(space_length(q) as int));
        assert(begins_with_line_break(sep + q));
        if a is AfterBody {
            lemma_owed(aq, d, true);
            assert(unified(sep + q, d, a, false) == seq![' '] + cx);
            lemma_gap(u, cx);
        }
    } else {
        let i = choose|i: int|
            0 <= i < sep.len() && #[trigger] sep[i] == ',' && all_space(sep.take(i)) && all_space(
                sep.skip(i + 1),
            );
        let (w1, w2) = (sep.take(i), sep.skip(i + 1));
        let rest = seq![','] + (w2 + q);
        assert(sep + q =~= w1 + rest);
        lemma_spaces_before(w1, rest);
        assert(rest[0] == ',');
        assert(after_spaces(rest) =~= rest);
        assert(rest.drop_first() =~= w2 + q);
        lemma_spaces_before(w2, q);
        let tail = w2 + q;
        if !(tail.len() > 0 && is_space(tail[0])) {
            assert(w2.len() == 0) by {
                if w2.len() > 0 {
                    assert(tail[0] == w2[0]);
                }
            }
            assert(tail =~= q);
            assert(aq =~= q);
        }
        if a is AfterBody {
            lemma_owed(aq, d, true);
            lemma_owed(aq, d, false);
            let y = unified(tail, d, Place::AfterSeparator, false);
            let z = unified(tail, d, Place::AfterSeparator, true);
            assert(z == cx);
            assert(y == cx || y == seq![' '] + cx);
            assert(unified(rest, d, Place::AfterSeparator, true) == z);
            assert(unified(rest, d, Place::AfterBody, true) == z);
            assert(unified(rest, d, Place::AfterBody, false) == y);
            if w1.len() > 0 {
                assert((w1 + rest)[0] == w1[0]);
                assert(unified(w1 + rest, d, a, false) == seq![' '] + cx);
                lemma_gap(u, cx);
            } else {
                assert(w1 + rest =~= rest);
                if y != cx {
                    lemma_gap(u, cx);
                }
            }
        } else {
            // What follows the comma: a space may come first.
            let y = unified(tail, d, Place::Start, false);
            assert(y == x || y == seq![' '] + x);
            assert(unified(rest, d, a, false) == seq![','] + y);
            assert(unified(rest, d, a, true) == seq![','] + y);
            let comma = u + seq![','];
            assert(u + (seq![','] + y) =~= comma + y);
            assert(u + (seq![','] + x) =~= comma + x);
            if y != x {
                lemma_gap(comma, x);
            }
            if w1.len() > 0 {
                assert((w1 + rest)[0] == w1[0]);
                assert(!begins_with_line_break(w1 + rest));
                assert(unified(w1 + rest, d, a, false) == seq![' '] + (seq![','] + y));
                lemma_gap(u, seq![','] + y);
            } else {
                assert(w1 + rest =~= rest);
            }
        }
    }
}

/// The single-line and the multi-line form of a struct body have the same canonical form: it does
/// not matter how two fields are separated, by a comma or by a line break.
pub proof fn law_separators_equal(
    p: Seq<char>,
    sep1: Seq<char>,
    sep2: Seq<char>,
    q: Seq<char>,
)
    requires
        is_separator(sep1),
        is_separator(sep2),
        separates_fields(p, q),
    ensures
        canonical(p + (sep1 + q)) == canonical(p + (sep2 + q)),
{
    lemma_canonical_separator(p, sep1, q);
    lemma_canonical_separator(p, sep2, q);
}

/// In a struct body `p` ends with a field, and `q` begins with the next one.
pub open spec fn separates_fields(p: Seq<char>, q: Seq<char>) -> bool {
    let bodies = label_state(p, before(p + q), false).0;
    let next = after_spaces(unlabeled(q, bodies, true));
    &&& p.len() > 0
    &&& !is_space(p.last())
    &&& p.last() != ','
    &&& p.last() != '{'
    &&& p.last() != ':'
    &&& between_fields(bodies)
    &&& begins_with_field(next)
    &&& p.last() == '}' ==> !is_continuation(next[0])
}

proof fn lemma_canonical_separator(p: Seq<char>, sep: Seq<char>, q: Seq<char>)
    requires
        is_separator(sep),
        separates_fields(p, q),
    ensures
        ({
            let b = before(p + q);
            let s = unlabeled(p, b, false);
            canonical(p + (sep + q)) == trimmed(
                tight(
                    unified_text(b, s) + (seq![','] + unified(
                        after_spaces(unlabeled(q, label_state(p, b, false).0, true)),
                        state_of(b, s).0,
                        Place::Start,
                        true,
                    )),
                ),
            )
        }),
{
    let b = before(p + q);
    let (d, st) = label_state(p, b, false);
    let s = unlabeled(p, b, false);
    let rest = sep + q;
    lemma_separator_has_no_brackets(sep);
    lemma_before_alike(p, sep, q);
    lemma_canonical(p + rest);
    lemma_separator_begins(sep, q);
    lemma_split_before(p, rest, b, false);
    lemma_unlabeled_separator(sep, q, d, st);
    lemma_unlabeled_last(p, b, false);
    lemma_bodies_of_labels(p, b, false);
    lemma_bodies_of_spaces(s, b, Place::Start, true);
    lemma_normalized_separator(b, s, sep, unlabeled(q, d, true));
}

pub(crate) proof fn lemma_separator_begins(sep: Seq<char>, q: Seq<char>)
    requires
        is_separator(sep),
    ensures
        sep.len() > 0,
        is_space((sep + q)[0]) || (sep + q)[0] == ',',
        blank_length(sep + q) < (sep + q).len(),
        (sep + q)[blank_length(sep + q) as int] != ':',
{
    let s = sep + q;
    lemma_blank_length(s);
    let k = blank_length(s);
    if all_space(sep) && has_newline(sep) {
        let i = choose|i: int| 0 <= i < sep.len() && is_newline(#[trigger] sep[i]);
        assert(s[i] == sep[i]);
        assert(s[0] == sep[0]);
        assert(k <= i);
        assert(s[k as int] == sep[k as int]);
    } else {
        let i = choose|i: int|
            0 <= i < sep.len() && #[trigger] sep[i] == ',' && all_space(sep.take(i)) && all_space(
                sep.skip(i + 1),
            );
        assert(s[i] == ',');
        assert(k <= i);
        if k < i {
            assert(s[k as int] == sep.take(i)[k as int]);
        }
        if i > 0 {
            assert(s[0] == sep.take(i)[0]);
        }
    }
}

} // verus!
