//! The canonical form of a struct: its name and the types of its fields.
use crate::compat::canonical::{
    after_identifier, after_spaces, before, begins_identifier, begins_with_label, between_fields,
    blank_length, canonical, closed, closes_parentheses, counted, has_newline, identifier_length,
    in_field, in_identifier, inside, is_blank, is_newline, is_punctuation, is_space,
    lemma_after_identifier_is_shorter, lemma_blank_length, lemma_identifier_length,
    lemma_space_length, normalized, opened, outside, owed, space_length, stripped, tightened,
    unlabeled, Bodies, Place,
};
use crate::compat::canonical_laws::{
    all_blank, all_space, bodies_after, has_no_brackets, is_identifier, is_separator, label,
    label_state, lemma_bodies_concat, lemma_bodies_of_spaces, lemma_canonical,
    lemma_gap_before_brace, lemma_label_is_dropped, lemma_no_brackets, lemma_no_label,
    lemma_normalized_separator, lemma_padding, lemma_separator_begins,
    lemma_separator_has_no_brackets, lemma_spaces_have_no_brackets, lemma_split_before,
    lemma_unified_last, lemma_unlabeled_separator, lemma_unlabeled_spaces, normalized_from,
    space_state,
};
use crate::compat::normal_laws::{is_unified, lemma_unified_is_kept};
use crate::compat::text::{separated, white_space};
use vstd::prelude::*;

verus! {

/// A text without whitespace, braces and commas.
pub open spec fn is_plain(s: Seq<char>) -> bool {
    &&& s.len() > 0
    &&& forall|i: int|
        0 <= i < s.len() ==> !white_space(#[trigger] s[i]) && s[i] != '{' && s[i] != '}' && s[i]
            != ','
}

/// The struct bodies at a place in a struct that is not inside another.
pub open spec fn in_struct() -> Bodies {
    opened(outside())
}

/// A text without braces, in which the parentheses that are opened are closed.
pub open spec fn is_balanced(s: Seq<char>) -> bool {
    &&& forall|i: int| 0 <= i < s.len() ==> (#[trigger] s[i]) != '{' && s[i] != '}'
    &&& bodies_after(s, in_struct()) == in_struct()
}

/// A name: an identifier without whitespace in it, such as one in ASCII.
pub open spec fn is_name(s: Seq<char>) -> bool {
    is_identifier(s) && forall|i: int| 0 <= i < s.len() ==> !white_space(#[trigger] s[i])
}

/// The fields one after the other, each with what separates it from the one before.
pub open spec fn listed(separators: Seq<Seq<char>>, fields: Seq<Seq<char>>) -> Seq<char>
    decreases fields.len(),
{
    if fields.len() == 0 {
        seq![]
    } else {
        listed(separators.drop_last(), fields.drop_last()) + separators.last() + fields.last()
    }
}

/// There is a separator before each field but the first, before which there are spaces only.
pub open spec fn separate(separators: Seq<Seq<char>>, fields: Seq<Seq<char>>) -> bool {
    &&& separators.len() == fields.len() > 0
    &&& all_space(separators[0])
    &&& forall|i: int| 0 < i < separators.len() ==> is_separator(#[trigger] separators[i])
}

/// A struct with some spaces after its name.
pub open spec fn struct_text(name: Seq<char>, gap: Seq<char>, body: Seq<char>) -> Seq<char> {
    "struct "@ + name + gap + "{"@ + body + "}"@
}

/// The normal form of a struct.
pub open spec fn normal_struct(name: Seq<char>, fields: Seq<Seq<char>>) -> Seq<char> {
    struct_text(name, seq![], separated(fields, ","@))
}

proof fn lemma_literals()
    ensures
        "struct "@ =~= seq!['s', 't', 'r', 'u', 'c', 't', ' '],
        "{"@ =~= seq!['{'],
        "}"@ =~= seq!['}'],
        ","@ =~= seq![','],
{
    reveal_strlit("struct ");
    reveal_strlit("{");
    reveal_strlit("}");
    reveal_strlit(",");
}

// The fields in normal form.
proof fn lemma_separated(fields: Seq<Seq<char>>)
    requires
        fields.len() > 0,
        forall|i: int| 0 <= i < fields.len() ==> is_plain(#[trigger] fields[i]),
    ensures
        separated(fields, ","@).len() > 0,
        separated(fields, ","@).last() == fields.last().last(),
        forall|i: int|
            0 <= i < separated(fields, ","@).len() ==> {
                let c = #[trigger] separated(fields, ","@)[i];
                c != ' ' && c != '{' && c != '}'
            },
    decreases fields.len(),
{
    lemma_literals();
    assert(is_plain(fields[fields.len() - 1]));
    let s = separated(fields, ","@);
    if fields.len() == 1 {
        assert(s == fields[0]);
        assert forall|i: int| 0 <= i < s.len() implies {
            let c = #[trigger] s[i];
            c != ' ' && c != '{' && c != '}'
        } by {
            assert(!white_space(fields[0][i]));
        }
    } else {
        let before = fields.drop_last();
        assert forall|i: int| 0 <= i < before.len() implies is_plain(#[trigger] before[i]) by {
            assert(before[i] == fields[i]);
        }
        lemma_separated(before);
        let p = separated(before, ","@);
        let last = fields.last();
        assert(s == p + ","@ + last);
        assert forall|i: int| 0 <= i < s.len() implies {
            let c = #[trigger] s[i];
            c != ' ' && c != '{' && c != '}'
        } by {
            if i < p.len() {
                assert(s[i] == p[i]);
            } else if i == p.len() {
                assert(s[i] == ',');
            } else {
                assert(s[i] == last[i - p.len() - 1]);
                assert(!white_space(last[i - p.len() - 1]));
            }
        }
    }
}

/// Plain text is unified, and a field has begun after it.
proof fn lemma_plain_is_unified(
    p: Seq<char>,
    q: Seq<char>,
    bodies: Bodies,
    place: Place,
    spaced: bool,
)
    requires
        is_plain(p),
        !(place is AfterSeparator),
    ensures
        is_unified(p + q, bodies, place, spaced) == is_unified(
            q,
            bodies_after(p, bodies),
            in_field(bodies, place),
            false,
        ),
    decreases p.len(),
{
    let t = p.drop_first();
    let s = p + q;
    assert(s[0] == p[0]);
    assert(s.drop_first() =~= t + q);
    assert(!white_space(p[0]));
    if t.len() == 0 {
        assert(t + q =~= q);
        assert(bodies_after(t, counted(bodies, p[0])) == counted(bodies, p[0]));
    } else {
        assert(is_plain(t)) by {
            assert forall|i: int| 0 <= i < t.len() implies !white_space(#[trigger] t[i]) && t[i]
                != '{' && t[i] != '}' && t[i] != ',' by {
                assert(t[i] == p[i + 1]);
            }
        }
        lemma_plain_is_unified(t, q, counted(bodies, p[0]), in_field(bodies, place), false);
    }
}

/// Fields with commas between them are unified.
proof fn lemma_fields_are_unified(fields: Seq<Seq<char>>, q: Seq<char>)
    requires
        fields.len() > 0,
        forall|i: int| 0 <= i < fields.len() ==> is_plain(#[trigger] fields[i]),
        forall|i: int| 0 <= i < fields.len() ==> is_balanced(#[trigger] fields[i]),
        is_unified(q, in_struct(), Place::Field, false),
    ensures
        is_unified(separated(fields, ","@) + q, in_struct(), Place::Start, false),
    decreases fields.len(),
{
    lemma_literals();
    let last = fields.last();
    assert(is_plain(fields[fields.len() - 1]));
    assert(is_balanced(fields[fields.len() - 1]));
    lemma_plain_is_unified(last, q, in_struct(), Place::Start, false);
    if fields.len() > 1 {
        let before = fields.drop_last();
        assert forall|i: int| 0 <= i < before.len() implies is_plain(#[trigger] before[i]) by {
            assert(before[i] == fields[i]);
        }
        assert forall|i: int| 0 <= i < before.len() implies is_balanced(#[trigger] before[i]) by {
            assert(before[i] == fields[i]);
        }
        let rest = seq![','] + (last + q);
        assert(rest[0] == ',');
        assert(rest.drop_first() =~= last + q);
        lemma_fields_are_unified(before, rest);
        assert(separated(fields, ","@) + q =~= separated(before, ","@) + rest);
    }
}

/// The fields leave the open bodies as they are.
proof fn lemma_bodies_of_fields(fields: Seq<Seq<char>>)
    requires
        fields.len() > 0,
        forall|i: int| 0 <= i < fields.len() ==> is_balanced(#[trigger] fields[i]),
    ensures
        bodies_after(separated(fields, ","@), in_struct()) == in_struct(),
    decreases fields.len(),
{
    lemma_literals();
    assert(is_balanced(fields[fields.len() - 1]));
    if fields.len() > 1 {
        let before = fields.drop_last();
        assert forall|i: int| 0 <= i < before.len() implies is_balanced(#[trigger] before[i]) by {
            assert(before[i] == fields[i]);
        }
        lemma_bodies_of_fields(before);
        let p = separated(before, ","@);
        lemma_bodies_concat(p + ","@, fields.last(), in_struct());
        lemma_bodies_concat(p, ","@, in_struct());
        lemma_no_brackets(","@, seq![], in_struct());
    }
}

/// A text in which no space has punctuation next to it is tight.
proof fn lemma_is_tight(s: Seq<char>, n: nat)
    requires
        n <= s.len(),
        forall|i: int|
            0 <= i < s.len() && #[trigger] s[i] == ' ' ==> !(i > 0 && is_punctuation(s[i - 1]))
                && !(i + 1 < s.len() && is_punctuation(s[i + 1])),
    ensures
        tightened(s, n) == s.take(n as int),
    decreases n,
{
    if n > 0 {
        lemma_is_tight(s, (n - 1) as nat);
        assert(s.take(n as int) =~= s.take(n - 1).push(s[n - 1]));
    } else {
        assert(tightened(s, n) =~= s.take(0));
    }
}

proof fn lemma_name(name: Seq<char>)
    requires
        is_name(name),
    ensures
        is_plain(name),
        forall|i: int| 0 <= i < name.len() ==> !is_punctuation(#[trigger] name[i]),
        has_no_brackets(name),
{
    assert forall|i: int| 0 <= i < name.len() implies !white_space(#[trigger] name[i]) && name[i]
        != '{' && name[i] != '}' && name[i] != ',' && !is_punctuation(name[i]) by {
        assert(in_identifier(name[i]));
    }
}

/// The normal form of a struct is normal.
proof fn lemma_normal_struct(name: Seq<char>, fields: Seq<Seq<char>>)
    requires
        is_name(name),
        fields.len() > 0,
        forall|i: int| 0 <= i < fields.len() ==> is_plain(#[trigger] fields[i]),
        forall|i: int| 0 <= i < fields.len() ==> is_balanced(#[trigger] fields[i]),
    ensures
        normalized_from(outside(), normal_struct(name, fields)) == normal_struct(name, fields),
{
    lemma_literals();
    lemma_name(name);
    lemma_separated(fields);
    let n = normal_struct(name, fields);
    let body = separated(fields, ","@);
    let word = seq!['s', 't', 'r', 'u', 'c', 't'];
    assert(is_plain(word));
    let inner = body + seq!['}'];
    let from_brace = seq!['{'] + inner;
    let from_space = seq![' '] + (name + from_brace);
    assert(n =~= word + from_space);
    assert(seq!['}'].drop_first() =~= seq![]);
    assert(closed(in_struct()).open =~= outside().open);
    assert(is_unified(seq!['}'], in_struct(), Place::Field, false)) by {
        reveal_with_fuel(is_unified, 2);
    }
    lemma_fields_are_unified(fields, seq!['}']);
    assert(from_brace.drop_first() =~= inner);
    assert(is_unified(from_brace, outside(), Place::Start, false));
    lemma_plain_is_unified(name, from_brace, outside(), Place::Start, true);
    assert(has_no_brackets(name));
    lemma_no_brackets(name, seq![], outside());
    assert(from_space.drop_first() =~= name + from_brace);
    assert(is_unified(from_space, outside(), Place::Start, false));
    lemma_plain_is_unified(word, from_space, outside(), Place::Start, true);
    lemma_no_brackets(word, seq![], outside());
    lemma_unified_is_kept(n, outside(), Place::Start, true);
    assert(owed(Place::Start) + n =~= n);
    assert forall|i: int| 0 <= i < n.len() && #[trigger] n[i] == ' ' implies !(i > 0
        && is_punctuation(n[i - 1])) && !(i + 1 < n.len() && is_punctuation(n[i + 1])) by {
        let start = 7 + name.len();
        if i < 6 {
            assert(n[i] == word[i]);
        } else if i > 6 && i < start {
            assert(n[i] == name[i - 7]);
            assert(!white_space(name[i - 7]));
        } else if i == start {
            assert(n[i] == '{');
        } else if i > start && i < start + 1 + body.len() {
            assert(n[i] == body[i - start - 1]);
        } else if i > start {
            assert(n[i] == '}');
        } else {
            assert(n[5] == 't');
            assert(n[7] == name[0]);
        }
    }
    lemma_is_tight(n, n.len());
    assert(n.take(n.len() as int) =~= n);
    assert(n.last() == '}');
}

// The fields in any layout.
proof fn lemma_head(head: Seq<char>, body: Seq<char>)
    requires
        has_no_brackets(head),
        bodies_after(body, in_struct()) == in_struct(),
    ensures
        bodies_after(head, outside()) == outside(),
        bodies_after(head + seq!['{'] + body, outside()) == in_struct(),
{
    lemma_no_brackets(head, seq!['{'], outside());
    lemma_bodies_concat(head + seq!['{'], body, outside());
    assert(seq!['{'].drop_first() =~= seq![]);
    reveal_with_fuel(bodies_after, 2);
}

/// Text without braces is read on with the bodies that it leaves open.
proof fn lemma_closes_after(s: Seq<char>, q: Seq<char>, bodies: Bodies)
    requires
        forall|i: int| 0 <= i < s.len() ==> (#[trigger] s[i]) != '{' && s[i] != '}',
    ensures
        closes_parentheses(s + q, bodies) == closes_parentheses(q, bodies_after(s, bodies)),
    decreases s.len(),
{
    if s.len() == 0 {
        assert(s + q =~= q);
    } else {
        let t = s.drop_first();
        assert((s + q)[0] == s[0]);
        assert((s + q).drop_first() =~= t + q);
        assert forall|i: int| 0 <= i < t.len() implies (#[trigger] t[i]) != '{' && t[i] != '}' by {
            assert(t[i] == s[i + 1]);
        }
        assert(s[0] != '{' && s[0] != '}');
        lemma_closes_after(t, q, counted(bodies, s[0]));
    }
}

proof fn lemma_listed_closes(
    separators: Seq<Seq<char>>,
    fields: Seq<Seq<char>>,
    q: Seq<char>,
)
    requires
        separators.len() == fields.len(),
        forall|i: int| 0 <= i < separators.len() ==> has_no_brackets(#[trigger] separators[i]),
        forall|i: int| 0 <= i < fields.len() ==> is_balanced(#[trigger] fields[i]),
    ensures
        closes_parentheses(listed(separators, fields) + q, in_struct()) == closes_parentheses(
            q,
            in_struct(),
        ),
    decreases fields.len(),
{
    if fields.len() == 0 {
        assert(listed(separators, fields) + q =~= q);
    } else {
        let n = fields.len() - 1;
        let (sep, f) = (separators[n], fields[n]);
        let before_seps = separators.drop_last();
        let before = fields.drop_last();
        assert forall|i: int| 0 <= i < before_seps.len() implies has_no_brackets(
            #[trigger] before_seps[i],
        ) by {
            assert(before_seps[i] == separators[i]);
        }
        assert forall|i: int| 0 <= i < before.len() implies is_balanced(#[trigger] before[i]) by {
            assert(before[i] == fields[i]);
        }
        let rest = sep + (f + q);
        lemma_listed_closes(before_seps, before, rest);
        assert(listed(separators, fields) + q =~= listed(before_seps, before) + rest);
        assert(has_no_brackets(separators[n]));
        lemma_no_brackets(sep, f + q, in_struct());
        assert(is_balanced(fields[n]));
        lemma_closes_after(f, q, in_struct());
    }
}

/// In a struct with balanced fields all parentheses are closed.
proof fn lemma_struct_before(
    name: Seq<char>,
    gap: Seq<char>,
    separators: Seq<Seq<char>>,
    fields: Seq<Seq<char>>,
    tail: Seq<char>,
)
    requires
        is_name(name),
        all_space(gap),
        separate(separators, fields),
        forall|i: int| 0 <= i < fields.len() ==> is_balanced(#[trigger] fields[i]),
        all_space(tail),
    ensures
        before(struct_text(name, gap, listed(separators, fields) + tail)) == outside(),
{
    lemma_literals();
    lemma_name(name);
    let head = "struct "@ + name + gap;
    let x = struct_text(name, gap, listed(separators, fields) + tail);
    let close = seq!['}'];
    let inner = listed(separators, fields) + (tail + close);
    assert(x =~= head + (seq!['{'] + inner));
    lemma_spaces_have_no_brackets(gap);
    lemma_spaces_have_no_brackets(tail);
    assert(has_no_brackets(head)) by {
        assert forall|i: int| 0 <= i < head.len() implies (#[trigger] head[i]) != '{' && head[i]
            != '}' && head[i] != '(' && head[i] != ')' by {
            if 7 <= i < 7 + name.len() {
                assert(head[i] == name[i - 7]);
            } else if i >= 7 {
                assert(head[i] == gap[i - 7 - name.len()]);
            }
        }
    }
    lemma_no_brackets(head, seq!['{'] + inner, outside());
    assert((seq!['{'] + inner).drop_first() =~= inner);
    assert forall|i: int| 0 <= i < separators.len() implies has_no_brackets(
        #[trigger] separators[i],
    ) by {
        if i == 0 {
            lemma_spaces_have_no_brackets(separators[0]);
        } else {
            lemma_separator_has_no_brackets(separators[i]);
        }
    }
    lemma_listed_closes(separators, fields, tail + close);
    lemma_no_brackets(tail, close, in_struct());
    assert(close.drop_first() =~= seq![]);
    assert(closed(in_struct()).open =~= seq![]);
    assert(closes_parentheses(close, in_struct())) by {
        reveal_with_fuel(closes_parentheses, 2);
    }
}

/// The separators become commas.
proof fn lemma_listed(
    head: Seq<char>,
    separators: Seq<Seq<char>>,
    fields: Seq<Seq<char>>,
    r: Seq<char>,
)
    requires
        has_no_brackets(head),
        separate(separators, fields),
        forall|i: int| 0 <= i < fields.len() ==> is_plain(#[trigger] fields[i]),
        forall|i: int| 0 <= i < fields.len() ==> is_balanced(#[trigger] fields[i]),
    ensures
        normalized_from(outside(), head + seq!['{'] + (listed(separators, fields) + r))
            == normalized_from(outside(), head + seq!['{'] + (separated(fields, ","@) + r)),
    decreases fields.len(),
{
    lemma_literals();
    let start = head + seq!['{'];
    let last = fields.last();
    let sep = separators.last();
    assert(is_plain(fields[fields.len() - 1]));
    let before = fields.drop_last();
    let before_seps = separators.drop_last();
    if fields.len() == 1 {
        assert(before_seps =~= seq![]);
        assert(before =~= seq![]);
        assert(listed(before_seps, before) =~= seq![]);
        assert(listed(separators, fields) =~= sep + last);
        lemma_head(head, seq![]);
        assert(start + seq![] =~= start);
        lemma_bodies_of_spaces(start, outside(), Place::Start, true);
        lemma_unified_last(start, outside(), Place::Start, true);
        lemma_padding(outside(), start, sep, last + r);
        assert(start + (listed(separators, fields) + r) =~= start + (sep + (last + r)));
    } else {
        assert forall|i: int| 0 <= i < before.len() implies is_plain(#[trigger] before[i]) by {
            assert(before[i] == fields[i]);
        }
        assert forall|i: int| 0 <= i < before.len() implies is_balanced(#[trigger] before[i]) by {
            assert(before[i] == fields[i]);
        }
        assert(separate(before_seps, before)) by {
            assert(before_seps[0] == separators[0]);
            assert forall|i: int| 0 < i < before_seps.len() implies is_separator(
                #[trigger] before_seps[i],
            ) by {
                assert(before_seps[i] == separators[i]);
            }
        }
        assert(is_separator(separators[separators.len() - 1]));
        let q = last + r;
        let rest = sep + q;
        lemma_listed(head, before_seps, before, rest);
        assert(listed(separators, fields) + r =~= listed(before_seps, before) + rest);
        lemma_separated(before);
        let done = separated(before, ","@);
        let s = start + done;
        lemma_bodies_of_fields(before);
        lemma_head(head, done);
        lemma_bodies_of_spaces(s, outside(), Place::Start, true);
        assert(is_plain(before.last())) by {
            assert(before.last() == before[before.len() - 1]);
        }
        let end = before.last();
        assert(!white_space(end[end.len() - 1]));
        assert(s.last() == end.last());
        assert(s.last() != '}');
        assert(q[0] == last[0]);
        assert(!white_space(last[0]));
        assert(after_spaces(q) =~= q);
        let comma = seq![','];
        assert(is_separator(comma)) by {
            assert(comma[0] == ',');
            assert(all_space(comma.take(0)) && all_space(comma.skip(1)));
        }
        lemma_normalized_separator(outside(), s, sep, q);
        lemma_normalized_separator(outside(), s, comma, q);
        assert(start + (done + rest) =~= s + (sep + q));
        assert(start + (separated(fields, ","@) + r) =~= s + (comma + q));
    }
}

/// Outside of structs no field begins.
proof fn lemma_place_outside(s: Seq<char>, bodies: Bodies, place: Place, spaced: bool)
    requires
        forall|i: int| 0 <= i < s.len() ==> (#[trigger] s[i]) != '{' && s[i] != '}',
        !inside(bodies),
    ensures
        space_state(s, bodies, place, spaced).1 == place,
    decreases s.len(),
{
    if s.len() > 0 {
        lemma_space_length(s);
        let t = s.drop_first();
        let rest = after_spaces(s);
        assert(s[0] != '{' && s[0] != '}');
        assert forall|i: int| 0 <= i < t.len() implies (#[trigger] t[i]) != '{' && t[i] != '}' by {
            assert(t[i] == s[i + 1]);
        }
        assert forall|i: int| 0 <= i < rest.len() implies (#[trigger] rest[i]) != '{' && rest[i]
            != '}' by {
            assert(rest[i] == s[i + space_length(s)]);
        }
        if is_space(s[0]) {
            lemma_place_outside(rest, bodies, place, true);
        } else {
            lemma_place_outside(t, bodies, place, false);
        }
    }
}

/// A list of plain fields has one normal form, however it is laid out: each separator, a comma or
/// a line break or both, becomes one comma.
///
/// The parentheses of each field must be closed in it: between `(` and `)` a line break separates
/// no fields.
pub proof fn law_fields_in_any_layout(
    name: Seq<char>,
    gap: Seq<char>,
    separators: Seq<Seq<char>>,
    fields: Seq<Seq<char>>,
    tail: Seq<char>,
)
    requires
        is_name(name),
        all_space(gap),
        separate(separators, fields),
        forall|i: int| 0 <= i < fields.len() ==> is_plain(#[trigger] fields[i]),
        forall|i: int| 0 <= i < fields.len() ==> is_balanced(#[trigger] fields[i]),
        all_space(tail),
    ensures
        normalized(struct_text(name, gap, listed(separators, fields) + tail)) == normal_struct(
            name,
            fields,
        ),
{
    lemma_literals();
    lemma_name(name);
    lemma_separated(fields);
    let head = "struct "@ + name;
    let open = seq!['{'];
    let close = seq!['}'];
    let body = listed(separators, fields);
    let done = separated(fields, ","@);
    assert(has_no_brackets(head)) by {
        assert forall|i: int| 0 <= i < head.len() implies (#[trigger] head[i]) != '{' && head[i]
            != '}' && head[i] != '(' && head[i] != ')' by {
            if i >= 7 {
                assert(head[i] == name[i - 7]);
            }
        }
    }
    lemma_struct_before(name, gap, separators, fields, tail);
    assert(head.last() == name[name.len() - 1]);
    assert(!white_space(name[name.len() - 1]));
    lemma_bodies_of_fields(fields);
    lemma_head(head, done);
    lemma_bodies_of_spaces(head, outside(), Place::Start, true);
    lemma_place_outside(head, outside(), Place::Start, true);
    let u = body + tail + close;
    lemma_gap_before_brace(outside(), head, gap, '{', u);
    assert(struct_text(name, gap, body + tail) =~= head + (gap + (open + u)));
    assert(head + (open + u) =~= head + open + (body + (tail + close)));
    lemma_listed(head, separators, fields, tail + close);
    let s = head + open + done;
    assert(is_plain(fields[fields.len() - 1]));
    let last = fields.last();
    assert(!white_space(last[last.len() - 1]));
    assert(s.last() == last.last());
    lemma_gap_before_brace(outside(), s, tail, '}', seq![]);
    assert(close + seq![] =~= close);
    assert(head + open + (done + (tail + close)) =~= s + (tail + close));
    assert(normal_struct(name, fields) =~= s + close);
    lemma_normal_struct(name, fields);
}

/// The same separator before every field but the first.
pub open spec fn repeated(lead: Seq<char>, separator: Seq<char>, n: nat) -> Seq<Seq<char>> {
    Seq::new(
        n,
        |i: int|
            if i == 0 {
                lead
            } else {
                separator
            },
    )
}

proof fn lemma_repeated(lead: Seq<char>, separator: Seq<char>, fields: Seq<Seq<char>>)
    requires
        fields.len() > 0,
    ensures
        listed(repeated(lead, separator, fields.len()), fields) == lead + separated(
            fields,
            separator,
        ),
    decreases fields.len(),
{
    let separators = repeated(lead, separator, fields.len());
    let before = fields.drop_last();
    assert(separators.drop_last() =~= repeated(lead, separator, before.len()));
    if fields.len() == 1 {
        assert(listed(separators.drop_last(), before) =~= seq![]);
    } else {
        lemma_repeated(lead, separator, before);
    }
    assert(listed(separators, fields) =~= lead + separated(fields, separator));
}

proof fn lemma_separate_repeated(lead: Seq<char>, separator: Seq<char>, fields: Seq<Seq<char>>)
    requires
        fields.len() > 0,
        all_space(lead),
        is_separator(separator),
    ensures
        separate(repeated(lead, separator, fields.len()), fields),
{
}

proof fn lemma_layouts()
    ensures
        is_separator(", "@),
        is_separator(",\n    "@),
        is_separator("\n    "@),
        all_space(" "@),
        all_space("\n    "@),
        all_space("\n"@),
        " "@.len() == 1,
        " "@[0] == ' ',
{
    reveal_strlit(", ");
    reveal_strlit(",\n    ");
    reveal_strlit("\n    ");
    reveal_strlit(" ");
    reveal_strlit("\n");
    assert(", "@[0] == ',');
    assert(all_space(", "@.take(0)) && all_space(", "@.skip(1)));
    assert(",\n    "@[0] == ',');
    assert(all_space(",\n    "@.take(0)) && all_space(",\n    "@.skip(1)));
    assert(is_newline("\n    "@[0]));
}

/// A list of plain fields has the same normal form on a single line, on several lines with commas,
/// and on several lines without.
pub proof fn law_single_line_and_multi_line(name: Seq<char>, fields: Seq<Seq<char>>)
    requires
        is_name(name),
        fields.len() > 0,
        forall|i: int| 0 <= i < fields.len() ==> is_plain(#[trigger] fields[i]),
        forall|i: int| 0 <= i < fields.len() ==> is_balanced(#[trigger] fields[i]),
    ensures
        normalized(struct_text(name, " "@, separated(fields, ", "@))) == normal_struct(
            name,
            fields,
        ),
        normalized(struct_text(name, " "@, separated(fields, ",\n    "@))) == normal_struct(
            name,
            fields,
        ),
        normalized(struct_text(name, " "@, "\n    "@ + separated(fields, "\n    "@) + "\n"@))
            == normal_struct(name, fields),
{
    lemma_layouts();
    let n = fields.len();
    lemma_repeated(seq![], ", "@, fields);
    lemma_separate_repeated(seq![], ", "@, fields);
    law_fields_in_any_layout(name, " "@, repeated(seq![], ", "@, n), fields, seq![]);
    assert(seq![] + separated(fields, ", "@) + seq![] =~= separated(fields, ", "@));
    lemma_repeated(seq![], ",\n    "@, fields);
    lemma_separate_repeated(seq![], ",\n    "@, fields);
    law_fields_in_any_layout(name, " "@, repeated(seq![], ",\n    "@, n), fields, seq![]);
    assert(seq![] + separated(fields, ",\n    "@) + seq![] =~= separated(fields, ",\n    "@));
    lemma_repeated("\n    "@, "\n    "@, fields);
    lemma_separate_repeated("\n    "@, "\n    "@, fields);
    law_fields_in_any_layout(name, " "@, repeated("\n    "@, "\n    "@, n), fields, "\n"@);
}

// The labels of fields.
/// A field type without structs and parentheses: identifiers and colons, where the first
/// identifier is not followed by a single colon.
pub open spec fn is_plain_type(t: Seq<char>) -> bool {
    &&& t.len() > 0
    &&& begins_identifier(t[0])
    &&& !begins_with_label(t)
    &&& forall|i: int|
        0 <= i < t.len() ==> (in_identifier(#[trigger] t[i]) || t[i] == ':') && !white_space(t[i])
}

/// A label before a field, with its colon and the blanks before and after that.
pub struct Label {
    pub name: Seq<char>,
    pub before: Seq<char>,
    pub after: Seq<char>,
}

pub open spec fn is_label(l: Label) -> bool {
    is_identifier(l.name) && all_blank(l.before) && all_blank(l.after)
}

/// A field: its type, with or without a label.
pub open spec fn field_text(l: Option<Label>, t: Seq<char>) -> Seq<char> {
    match l {
        Some(l) => label(l.name, l.before) + l.after + t,
        None => t,
    }
}

pub open spec fn field_texts(labels: Seq<Option<Label>>, types: Seq<Seq<char>>) -> Seq<Seq<char>> {
    Seq::new(types.len(), |i: int| field_text(labels[i], types[i]))
}

/// What stays of a label.
pub open spec fn rest_of(l: Option<Label>) -> Seq<char> {
    match l {
        Some(l) => l.after,
        None => seq![],
    }
}

/// The separators with what stays of the labels after them.
spec fn widened(separators: Seq<Seq<char>>, labels: Seq<Option<Label>>) -> Seq<Seq<char>> {
    Seq::new(separators.len(), |i: int| separators[i] + rest_of(labels[i]))
}

/// The labels of the fields are labels, and the types are plain.
pub open spec fn are_fields(labels: Seq<Option<Label>>, types: Seq<Seq<char>>) -> bool {
    &&& labels.len() == types.len()
    &&& forall|i: int| 0 <= i < labels.len() ==> (#[trigger] labels[i] matches Some(l) ==> is_label(l))
    &&& forall|i: int| 0 <= i < types.len() ==> is_plain_type(#[trigger] types[i])
}

/// A character that label stripping keeps inside a field.
spec fn is_kept(c: char) -> bool {
    c != '{' && c != '}' && c != ',' && c != '(' && c != ')' && !is_newline(c)
}

proof fn lemma_kept(p: Seq<char>, q: Seq<char>, bodies: Bodies)
    requires
        forall|i: int| 0 <= i < p.len() ==> is_kept(#[trigger] p[i]),
        inside(bodies),
    ensures
        unlabeled(p + q, bodies, false) == p + unlabeled(q, bodies, false),
        label_state(p, bodies, false) == (bodies, false),
    decreases p.len(),
{
    if p.len() == 0 {
        assert(p + q =~= q);
        assert(p + unlabeled(q, bodies, false) =~= unlabeled(q, bodies, false));
    } else {
        let t = p.drop_first();
        assert((p + q)[0] == p[0]);
        assert((p + q).drop_first() =~= t + q);
        assert(is_kept(p[0]));
        assert forall|i: int| 0 <= i < t.len() implies is_kept(#[trigger] t[i]) by {
            assert(t[i] == p[i + 1]);
        }
        lemma_kept(t, q, bodies);
        assert(unlabeled(p + q, bodies, false) =~= p + unlabeled(q, bodies, false));
    }
}

/// What follows a field: it does not go on with the field, nor make a label of it.
spec fn follows_field(q: Seq<char>) -> bool {
    &&& q.len() > 0
    &&& is_space(q[0]) || q[0] == ',' || q[0] == '}'
    &&& blank_length(q) < q.len() ==> q[blank_length(q) as int] != ':'
}

/// Of a field the label is dropped and all else is kept.
proof fn lemma_field(l: Option<Label>, t: Seq<char>, q: Seq<char>, bodies: Bodies)
    requires
        l matches Some(l) ==> is_label(l),
        is_plain_type(t),
        follows_field(q),
        inside(bodies),
        between_fields(bodies),
    ensures
        unlabeled(field_text(l, t) + q, bodies, true) == rest_of(l) + t + unlabeled(q, bodies, false),
{
    assert forall|i: int| 0 <= i < t.len() implies is_kept(#[trigger] t[i]) by {
        assert(in_identifier(t[i]) || t[i] == ':');
        assert(!white_space(t[i]));
    }
    match l {
        Some(l) => {
            let r = l.after + (t + q);
            assert(field_text(Some(l), t) + q =~= label(l.name, l.before) + r);
            assert(r[0] == if l.after.len() > 0 { l.after[0] } else { t[0] });
            if l.after.len() > 0 {
                assert(is_blank(l.after[0]));
            }
            lemma_label_is_dropped(l.name, l.before, r, bodies);
            assert forall|i: int| 0 <= i < l.after.len() implies is_kept(
                #[trigger] l.after[i],
            ) by {
                assert(is_blank(l.after[i]));
            }
            lemma_kept(l.after, t + q, bodies);
            lemma_kept(t, q, bodies);
            assert(l.after + (t + unlabeled(q, bodies, false)) =~= l.after + t + unlabeled(
                q,
                bodies,
                false,
            ));
        },
        None => {
            lemma_split_before(t, q, bodies, true);
            lemma_no_label(t, bodies);
            lemma_kept(t, seq![], bodies);
            assert(t + seq![] =~= t);
            assert(unlabeled(seq![], bodies, false) =~= seq![]);
            lemma_after_identifier_is_shorter(t);
            lemma_identifier_length(t);
            let n = identifier_length(t) as int;
            let rest = t.skip(n);
            assert forall|i: int| 0 <= i < rest.len() implies is_kept(#[trigger] rest[i]) by {
                assert(rest[i] == t[i + n]);
            }
            lemma_kept(rest, seq![], bodies);
            assert(is_kept(t[0]));
            assert(label_state(t, bodies, true) == (bodies, false));
            assert(seq![] + t =~= t);
        },
    }
}

/// Of all fields the labels are dropped and all else is kept.
proof fn lemma_fields(
    separators: Seq<Seq<char>>,
    labels: Seq<Option<Label>>,
    types: Seq<Seq<char>>,
    q: Seq<char>,
    bodies: Bodies,
)
    requires
        separate(separators, types),
        are_fields(labels, types),
        follows_field(q),
        between_fields(bodies),
    ensures
        unlabeled(listed(separators, field_texts(labels, types)) + q, bodies, true) == listed(
            widened(separators, labels),
            types,
        ) + unlabeled(q, bodies, false),
    decreases types.len(),
{
    let fields = field_texts(labels, types);
    let n = types.len();
    let (l, t, sep) = (labels[n - 1], types[n - 1], separators[n - 1]);
    let f = field_text(l, t);
    assert(fields.last() == f);
    let before = separators.drop_last();
    let before_types = types.drop_last();
    let before_labels = labels.drop_last();
    assert(fields.drop_last() =~= field_texts(before_labels, before_types));
    assert(widened(separators, labels).drop_last() =~= widened(before, before_labels));
    assert(is_plain_type(types[n - 1]));
    lemma_field(l, t, q, bodies);
    let start = listed(before, field_texts(before_labels, before_types));
    let kept = listed(widened(before, before_labels), before_types);
    let end = unlabeled(q, bodies, false);
    assert(listed(separators, fields) + q =~= start + (sep + (f + q)));
    assert(listed(widened(separators, labels), types) =~= kept + (sep + rest_of(l)) + t);
    if n == 1 {
        assert(start =~= seq![]);
        assert(kept =~= seq![]);
        assert(seq![] + (sep + (f + q)) =~= sep + (f + q));
        lemma_unlabeled_spaces(sep, f + q, bodies, true);
    } else {
        assert(separate(before, before_types)) by {
            assert(before[0] == separators[0]);
            assert forall|i: int| 0 < i < before.len() implies is_separator(
                #[trigger] before[i],
            ) by {
                assert(before[i] == separators[i]);
            }
        }
        assert(are_fields(before_labels, before_types)) by {
            assert forall|i: int| 0 <= i < before_labels.len() implies (
            #[trigger] before_labels[i] matches Some(l) ==> is_label(l)) by {
                assert(before_labels[i] == labels[i]);
            }
            assert forall|i: int| 0 <= i < before_types.len() implies is_plain_type(
                #[trigger] before_types[i],
            ) by {
                assert(before_types[i] == types[i]);
            }
        }
        assert(is_separator(separators[n - 1]));
        lemma_separator_begins(sep, f + q);
        lemma_fields(before, before_labels, before_types, sep + (f + q), bodies);
        lemma_unlabeled_separator(sep, f + q, bodies, false);
    }
    assert(kept + (sep + (rest_of(l) + t + end)) =~= kept + (sep + rest_of(l)) + t + end);
}

/// Before a struct nothing is dropped.
proof fn lemma_before_struct(head: Seq<char>, q: Seq<char>)
    requires
        forall|i: int| 0 <= i < head.len() ==> head[i] != '{' && head[i] != '}',
    ensures
        unlabeled(head + q, outside(), false) == head + unlabeled(q, outside(), false),
    decreases head.len(),
{
    if head.len() == 0 {
        assert(head + q =~= q);
        assert(head + unlabeled(q, outside(), false) =~= unlabeled(q, outside(), false));
    } else {
        let t = head.drop_first();
        assert((head + q)[0] == head[0]);
        assert((head + q).drop_first() =~= t + q);
        assert forall|i: int| 0 <= i < t.len() implies t[i] != '{' && t[i] != '}' by {
            assert(t[i] == head[i + 1]);
        }
        lemma_before_struct(t, q);
        assert(unlabeled(head + q, outside(), false) =~= head + unlabeled(q, outside(), false));
    }
}

/// The canonical form of a struct with plain field types is made of its name and its field types,
/// in their order, whatever the labels of the fields and the layout are.
pub proof fn law_struct_canonical(
    name: Seq<char>,
    gap: Seq<char>,
    separators: Seq<Seq<char>>,
    labels: Seq<Option<Label>>,
    types: Seq<Seq<char>>,
    tail: Seq<char>,
)
    requires
        is_name(name),
        all_space(gap),
        separate(separators, types),
        are_fields(labels, types),
        all_space(tail),
    ensures
        canonical(struct_text(name, gap, listed(separators, field_texts(labels, types)) + tail))
            == normal_struct(name, types),
{
    lemma_literals();
    lemma_name(name);
    let head = "struct "@ + name + gap;
    let q = tail + seq!['}'];
    let body = listed(separators, field_texts(labels, types));
    let kept = listed(widened(separators, labels), types);
    assert forall|i: int| 0 <= i < head.len() implies head[i] != '{' && head[i] != '}' by {
        if 7 <= i < 7 + name.len() {
            assert(head[i] == name[i - 7]);
            assert(!white_space(name[i - 7]));
        } else if i >= 7 {
            assert(head[i] == gap[i - 7 - name.len()]);
            assert(is_space(gap[i - 7 - name.len()]));
        }
    }
    let open = in_struct();
    let inner = body + q;
    let x = struct_text(name, gap, body + tail);
    assert(x =~= head + (seq!['{'] + inner));
    assert forall|i: int| 0 <= i < types.len() implies is_balanced(
        #[trigger] field_texts(labels, types)[i],
    ) by {
        lemma_field_is_balanced(labels[i], types[i]);
    }
    lemma_struct_before(name, gap, separators, field_texts(labels, types), tail);
    lemma_canonical(x);
    lemma_before_struct(head, seq!['{'] + inner);
    assert((seq!['{'] + inner).drop_first() =~= inner);
    assert(follows_field(q)) by {
        lemma_blank_length(q);
        assert(q[0] == if tail.len() > 0 { tail[0] } else { '}' });
        assert(q[tail.len() as int] == '}');
        let k = blank_length(q) as int;
        if k < tail.len() {
            assert(q[k] == tail[k]);
            assert(is_space(tail[k]));
        }
    }
    lemma_fields(separators, labels, types, q, open);
    lemma_unlabeled_spaces(tail, seq!['}'], open, false);
    assert(seq!['}'].drop_first() =~= seq![]);
    assert(forall|st: bool| unlabeled(seq!['}'], open, st) =~= seq!['}']) by {
        reveal_with_fuel(unlabeled, 2);
    }
    assert(unlabeled(q, open, false) == q);
    assert(stripped(x) =~= struct_text(name, gap, kept + tail));
    let wide = widened(separators, labels);
    assert(separate(wide, types)) by {
        assert(separators[0] + rest_of(labels[0]) == wide[0]);
        lemma_rest_is_blank(labels[0]);
        assert(all_space(wide[0]));
        assert forall|i: int| 0 < i < wide.len() implies is_separator(#[trigger] wide[i]) by {
            lemma_rest_is_blank(labels[i]);
            assert(is_separator(separators[i]));
            lemma_wider_separator(separators[i], rest_of(labels[i]));
        }
    }
    assert forall|i: int| 0 <= i < types.len() implies is_plain(#[trigger] types[i]) by {
        lemma_plain_type(types[i]);
    }
    assert forall|i: int| 0 <= i < types.len() implies is_balanced(#[trigger] types[i]) by {
        lemma_field_is_balanced(None, types[i]);
    }
    law_fields_in_any_layout(name, gap, wide, types, tail);
}

/// A plain type, with a label or without, has no brackets.
proof fn lemma_field_is_balanced(l: Option<Label>, t: Seq<char>)
    requires
        l matches Some(l) ==> is_label(l),
        is_plain_type(t),
    ensures
        is_balanced(field_text(l, t)),
{
    let f = field_text(l, t);
    assert(has_no_brackets(f)) by {
        assert forall|i: int| 0 <= i < f.len() implies (#[trigger] f[i]) != '{' && f[i] != '}'
            && f[i] != '(' && f[i] != ')' by {
            let start = f.len() - t.len();
            if i >= start {
                assert(f[i] == t[i - start]);
                assert(in_identifier(t[i - start]) || t[i - start] == ':');
            } else {
                let l = l->Some_0;
                let k = l.name.len();
                if i < k {
                    assert(f[i] == l.name[i]);
                    assert(in_identifier(l.name[i]));
                } else if i < k + l.before.len() {
                    assert(f[i] == l.before[i - k]);
                    assert(is_blank(l.before[i - k]));
                } else if i == k + l.before.len() {
                    assert(f[i] == ':');
                } else {
                    assert(f[i] == l.after[i - k - l.before.len() - 1]);
                    assert(is_blank(l.after[i - k - l.before.len() - 1]));
                }
            }
        }
    }
    lemma_no_brackets(f, seq![], in_struct());
}

proof fn lemma_rest_is_blank(l: Option<Label>)
    requires
        l matches Some(l) ==> is_label(l),
    ensures
        all_blank(rest_of(l)),
        all_space(rest_of(l)),
{
    assert forall|i: int| 0 <= i < rest_of(l).len() implies is_space(#[trigger] rest_of(l)[i]) by {
        assert(is_blank(rest_of(l)[i]));
    }
}

proof fn lemma_wider_separator(s: Seq<char>, w: Seq<char>)
    requires
        is_separator(s),
        all_space(w),
    ensures
        is_separator(s + w),
{
    let r = s + w;
    if all_space(s) && has_newline(s) {
        let i = choose|i: int| 0 <= i < s.len() && is_newline(#[trigger] s[i]);
        assert(r[i] == s[i]);
        assert forall|i: int| 0 <= i < r.len() implies is_space(#[trigger] r[i]) by {
            if i < s.len() {
                assert(r[i] == s[i]);
            } else {
                assert(r[i] == w[i - s.len()]);
            }
        }
    } else {
        let i = choose|i: int|
            0 <= i < s.len() && #[trigger] s[i] == ',' && all_space(s.take(i)) && all_space(
                s.skip(i + 1),
            );
        assert(r[i] == ',');
        assert(r.take(i) =~= s.take(i));
        let after = r.skip(i + 1);
        assert forall|j: int| 0 <= j < after.len() implies is_space(#[trigger] after[j]) by {
            if j < s.skip(i + 1).len() {
                assert(after[j] == s.skip(i + 1)[j]);
            } else {
                assert(after[j] == w[j - s.skip(i + 1).len()]);
            }
        }
    }
}

proof fn lemma_plain_type(t: Seq<char>)
    requires
        is_plain_type(t),
    ensures
        is_plain(t),
{
    assert forall|i: int| 0 <= i < t.len() implies !white_space(#[trigger] t[i]) && t[i] != '{'
        && t[i] != '}' && t[i] != ',' by {
        assert(in_identifier(t[i]) || t[i] == ':');
    }
}

/// The parts of a text between its commas.
spec fn split(s: Seq<char>) -> Seq<Seq<char>>
    decreases s.len(),
{
    if s.len() == 0 {
        seq![seq![]]
    } else {
        let before = split(s.drop_last());
        if s.last() == ',' {
            before.push(seq![])
        } else {
            before.drop_last().push(before.last().push(s.last()))
        }
    }
}

proof fn lemma_split_append(s: Seq<char>, t: Seq<char>)
    requires
        forall|i: int| 0 <= i < t.len() ==> t[i] != ',',
    ensures
        split(s).len() > 0,
        split(s + t) == split(s).drop_last().push(split(s).last() + t),
    decreases s.len() + t.len(),
{
    if t.len() == 0 {
        assert(s + t =~= s);
        if s.len() > 0 {
            lemma_split_append(s.drop_last(), t);
        }
        assert(split(s).last() + t =~= split(s).last());
        assert(split(s) =~= split(s).drop_last().push(split(s).last()));
    } else {
        let before = t.drop_last();
        assert((s + t).drop_last() =~= s + before);
        assert((s + t).last() == t.last());
        assert(t.last() == t[t.len() - 1]);
        assert forall|i: int| 0 <= i < before.len() implies before[i] != ',' by {
            assert(before[i] == t[i]);
        }
        lemma_split_append(s, before);
        let x = split(s + before);
        assert(x.drop_last() =~= split(s).drop_last());
        assert(x.last() == split(s).last() + before);
        assert((split(s).last() + before).push(t.last()) =~= split(s).last() + t);
    }
}

proof fn lemma_split_separated(fields: Seq<Seq<char>>)
    requires
        fields.len() > 0,
        forall|i: int| 0 <= i < fields.len() ==> is_plain(#[trigger] fields[i]),
    ensures
        split(separated(fields, ","@)) == fields,
    decreases fields.len(),
{
    lemma_literals();
    let last = fields.last();
    assert(is_plain(fields[fields.len() - 1]));
    assert forall|i: int| 0 <= i < last.len() implies last[i] != ',' by {
        assert(!white_space(last[i]));
    }
    if fields.len() == 1 {
        lemma_split_append(seq![], last);
        assert(seq![] + last =~= last);
        assert(split(seq![]) == seq![Seq::<char>::empty()]);
        assert(split(separated(fields, ","@)) =~= fields);
    } else {
        let before = fields.drop_last();
        assert forall|i: int| 0 <= i < before.len() implies is_plain(#[trigger] before[i]) by {
            assert(before[i] == fields[i]);
        }
        lemma_split_separated(before);
        let p = separated(before, ","@);
        let s = p.push(',');
        assert(s.drop_last() =~= p);
        assert(split(s) == before.push(seq![]));
        lemma_split_append(s, last);
        assert(separated(fields, ","@) =~= s + last);
        assert(split(s).drop_last() =~= before);
        assert(seq![] + last =~= last);
        assert(split(separated(fields, ","@)) =~= fields);
    }
}

/// The normal form tells the name and the fields.
proof fn lemma_normal_struct_is_injective(
    name1: Seq<char>,
    fields1: Seq<Seq<char>>,
    name2: Seq<char>,
    fields2: Seq<Seq<char>>,
)
    requires
        is_name(name1),
        is_name(name2),
        fields1.len() > 0,
        fields2.len() > 0,
        forall|i: int| 0 <= i < fields1.len() ==> is_plain(#[trigger] fields1[i]),
        forall|i: int| 0 <= i < fields2.len() ==> is_plain(#[trigger] fields2[i]),
        normal_struct(name1, fields1) == normal_struct(name2, fields2),
    ensures
        name1 == name2,
        fields1 == fields2,
{
    lemma_literals();
    lemma_name(name1);
    lemma_name(name2);
    let x = normal_struct(name1, fields1);
    let y = normal_struct(name2, fields2);
    let (n1, n2) = (name1.len() as int, name2.len() as int);
    assert(x[7 + n1] == '{');
    assert(y[7 + n2] == '{');
    if n1 < n2 {
        assert(y[7 + n1] == name2[n1]);
        assert(!white_space(name2[n1]));
    } else if n2 < n1 {
        assert(x[7 + n2] == name1[n2]);
        assert(!white_space(name1[n2]));
    }
    assert(name1 =~= x.subrange(7, 7 + n1));
    assert(name2 =~= y.subrange(7, 7 + n2));
    let body1 = separated(fields1, ","@);
    let body2 = separated(fields2, ","@);
    assert(body1 =~= x.subrange(8 + n1, x.len() - 1));
    assert(body2 =~= y.subrange(8 + n2, y.len() - 1));
    lemma_split_separated(fields1);
    lemma_split_separated(fields2);
}

/// Two structs with plain field types, one written like the other or not, have the same canonical
/// form if and only if they have the same name and the same field types in the same order. Their
/// labels do not matter.
pub proof fn law_canonical_tells_structs_apart(
    name1: Seq<char>,
    labels1: Seq<Option<Label>>,
    types1: Seq<Seq<char>>,
    name2: Seq<char>,
    labels2: Seq<Option<Label>>,
    types2: Seq<Seq<char>>,
)
    requires
        is_name(name1),
        is_name(name2),
        types1.len() > 0,
        types2.len() > 0,
        are_fields(labels1, types1),
        are_fields(labels2, types2),
    ensures
        ({
            let x = struct_text(name1, " "@, separated(field_texts(labels1, types1), ", "@));
            let y = struct_text(name2, " "@, separated(field_texts(labels2, types2), ", "@));
            &&& canonical(x) == normal_struct(name1, types1)
            &&& canonical(y) == normal_struct(name2, types2)
            &&& canonical(x) == canonical(y) <==> name1 == name2 && types1 == types2
        }),
{
    lemma_single_line(name1, labels1, types1);
    lemma_single_line(name2, labels2, types2);
    assert forall|i: int| 0 <= i < types1.len() implies is_plain(#[trigger] types1[i]) by {
        lemma_plain_type(types1[i]);
    }
    assert forall|i: int| 0 <= i < types2.len() implies is_plain(#[trigger] types2[i]) by {
        lemma_plain_type(types2[i]);
    }
    if normal_struct(name1, types1) == normal_struct(name2, types2) {
        lemma_normal_struct_is_injective(name1, types1, name2, types2);
    }
}

proof fn lemma_single_line(name: Seq<char>, labels: Seq<Option<Label>>, types: Seq<Seq<char>>)
    requires
        is_name(name),
        types.len() > 0,
        are_fields(labels, types),
    ensures
        canonical(struct_text(name, " "@, separated(field_texts(labels, types), ", "@)))
            == normal_struct(name, types),
{
    lemma_layouts();
    let fields = field_texts(labels, types);
    lemma_repeated(seq![], ", "@, fields);
    lemma_separate_repeated(seq![], ", "@, types);
    law_struct_canonical(
        name,
        " "@,
        repeated(seq![], ", "@, types.len()),
        labels,
        types,
        seq![],
    );
    assert(seq![] + separated(fields, ", "@) + seq![] =~= separated(fields, ", "@));
}

/// An identifier is a plain type.
pub proof fn lemma_name_is_plain_type(t: Seq<char>)
    requires
        is_name(t),
    ensures
        is_plain_type(t),
{
    lemma_identifier_length(t);
    let n = identifier_length(t);
    if n < t.len() {
        assert(in_identifier(t[n as int]));
    }
    let rest = t.skip(n as int);
    lemma_blank_length(rest);
    assert(after_identifier(t) =~= seq![]);
    assert forall|i: int| 0 <= i < t.len() implies (in_identifier(#[trigger] t[i]) || t[i] == ':')
        && !white_space(t[i]) by {}
}

/// Several identifiers joined by `::` are a plain type.
pub proof fn lemma_path_is_plain_type(names: Seq<Seq<char>>)
    requires
        names.len() > 0,
        forall|i: int| 0 <= i < names.len() ==> is_name(#[trigger] names[i]),
    ensures
        is_plain_type(separated(names, "::"@)),
    decreases names.len(),
{
    reveal_strlit("::");
    let t = separated(names, "::"@);
    assert(is_name(names[names.len() - 1]));
    if names.len() == 1 {
        lemma_name_is_plain_type(t);
    } else {
        let before = names.drop_last();
        assert forall|i: int| 0 <= i < before.len() implies is_name(#[trigger] before[i]) by {
            assert(before[i] == names[i]);
        }
        lemma_path_is_plain_type(before);
        let p = separated(before, "::"@);
        let last = names.last();
        let q = "::"@ + last;
        assert(t =~= p + q);
        assert forall|i: int| 0 <= i < t.len() implies (in_identifier(#[trigger] t[i]) || t[i]
            == ':') && !white_space(t[i]) by {
            if i < p.len() {
                assert(t[i] == p[i]);
            } else if i < p.len() + 2 {
                assert(t[i] == ':');
            } else {
                assert(t[i] == last[i - p.len() - 2]);
            }
        }
        assert(!begins_with_label(t)) by {
            lemma_identifier_length(p);
            lemma_identifier_length(t);
            let n = identifier_length(p) as int;
            let m = identifier_length(t) as int;
            assert(t[0] == p[0]);
            // The first identifier ends where it ends in `p`.
            assert(m == n) by {
                if m < n {
                    assert(t[m] == p[m]);
                } else if n < m {
                    assert(t[n] == if n < p.len() { p[n] } else { ':' });
                }
            }
            let rest = t.skip(n);
            lemma_blank_length(rest);
            let k = blank_length(rest) as int;
            if k > 0 {
                assert(is_blank(rest[0]));
                assert(rest[0] == t[n]);
            }
            assert(after_identifier(t) =~= rest);
            if n < p.len() {
                let p_rest = p.skip(n);
                lemma_blank_length(p_rest);
                if blank_length(p_rest) > 0 {
                    assert(is_blank(p_rest[0]));
                    assert(p_rest[0] == p[n]);
                }
                assert(after_identifier(p) =~= p_rest);
                assert(rest[0] == p_rest[0]);
                if rest[0] == ':' {
                    assert(p_rest.len() > 1 && p_rest[1] == ':');
                    assert(rest[1] == p_rest[1]);
                }
            } else {
                assert(rest[0] == ':' && rest[1] == ':');
            }
        }
    }
}

} // verus!
