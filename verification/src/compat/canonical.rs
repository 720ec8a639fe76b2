//! A canonical form of pretty-printed signatures and types.
//!
//! Struct field names are display-only metadata: they do not affect the layout of a type or the
//! encoding of its values. Two texts that differ only in field names, or in the way in which the
//! fields are laid out, have the same canonical form.
use crate::compat::text::{alphabetic, characters, numeric, text_of, white_space};
use vstd::prelude::*;

verus! {

/// A character that an identifier can begin with.
pub open spec fn begins_identifier(c: char) -> bool {
    alphabetic(c) || c == '_'
}

/// A character that an identifier can hold.
pub open spec fn in_identifier(c: char) -> bool {
    alphabetic(c) || numeric(c) || c == '_' || c == '-'
}

pub open spec fn is_blank(c: char) -> bool {
    c == ' ' || c == '\t'
}

pub open spec fn is_newline(c: char) -> bool {
    c == '\n' || c == '\r'
}

/// The number of characters at the beginning that identifiers can hold.
pub open spec fn identifier_length(s: Seq<char>) -> nat
    decreases s.len(),
{
    if s.len() > 0 && in_identifier(s[0]) {
        1 + identifier_length(s.drop_first())
    } else {
        0
    }
}

/// The number of blanks at the beginning.
pub open spec fn blank_length(s: Seq<char>) -> nat
    decreases s.len(),
{
    if s.len() > 0 && is_blank(s[0]) {
        1 + blank_length(s.drop_first())
    } else {
        0
    }
}

/// The text begins with a single colon: not with the `::` of a path.
pub open spec fn begins_with_colon(s: Seq<char>) -> bool {
    s.len() > 0 && s[0] == ':' && (s.len() == 1 || s[1] != ':')
}

/// What follows the identifier at the beginning and the blanks after it.
pub open spec fn after_identifier(s: Seq<char>) -> Seq<char> {
    let rest = s.skip(identifier_length(s) as int);
    rest.skip(blank_length(rest) as int)
}

/// The text begins with a field label: an identifier, blanks, and a single colon.
pub open spec fn begins_with_label(s: Seq<char>) -> bool {
    &&& s.len() > 0
    &&& begins_identifier(s[0])
    &&& begins_with_colon(after_identifier(s))
}

/// How far the identifier at the beginning goes.
pub proof fn lemma_identifier_length(s: Seq<char>)
    ensures
        identifier_length(s) <= s.len(),
        s.len() > 0 && begins_identifier(s[0]) ==> identifier_length(s) > 0,
        forall|i: int| 0 <= i < identifier_length(s) ==> in_identifier(#[trigger] s[i]),
        identifier_length(s) < s.len() ==> !in_identifier(s[identifier_length(s) as int]),
    decreases s.len(),
{
    if s.len() > 0 && in_identifier(s[0]) {
        let t = s.drop_first();
        lemma_identifier_length(t);
        assert forall|i: int| 0 <= i < identifier_length(s) implies in_identifier(#[trigger] s[i]) by {
            if i > 0 {
                assert(t[i - 1] == s[i]);
            }
        }
        if identifier_length(s) < s.len() {
            assert(t[identifier_length(t) as int] == s[identifier_length(s) as int]);
        }
    }
}

/// How far the blanks at the beginning go.
pub proof fn lemma_blank_length(s: Seq<char>)
    ensures
        blank_length(s) <= s.len(),
        forall|i: int| 0 <= i < blank_length(s) ==> is_blank(#[trigger] s[i]),
        blank_length(s) < s.len() ==> !is_blank(s[blank_length(s) as int]),
    decreases s.len(),
{
    if s.len() > 0 && is_blank(s[0]) {
        let t = s.drop_first();
        lemma_blank_length(t);
        assert forall|i: int| 0 <= i < blank_length(s) implies is_blank(#[trigger] s[i]) by {
            if i > 0 {
                assert(t[i - 1] == s[i]);
            }
        }
        if blank_length(s) < s.len() {
            assert(t[blank_length(t) as int] == s[blank_length(s) as int]);
        }
    }
}

/// What follows an identifier is shorter than the text.
pub proof fn lemma_after_identifier_is_shorter(s: Seq<char>)
    ensures
        identifier_length(s) <= s.len(),
        after_identifier(s).len() <= s.len(),
        s.len() > 0 && begins_identifier(s[0]) ==> identifier_length(s) > 0,
        s.len() > 0 && begins_identifier(s[0]) ==> after_identifier(s).len() < s.len(),
{
    lemma_identifier_length(s);
    lemma_blank_length(s.skip(identifier_length(s) as int));
}

/// The struct bodies that are open at some place of a text, and for each the number of parentheses
/// that were opened in it and are not closed. Parentheses are counted only where `counting` says so.
pub struct Bodies {
    pub open: Seq<nat>,
    pub counting: bool,
}

/// The place is inside a struct body.
pub open spec fn inside(bodies: Bodies) -> bool {
    bodies.open.len() > 0
}

/// The parentheses of the innermost struct body are closed: a separator here ends a field.
pub open spec fn between_fields(bodies: Bodies) -> bool {
    bodies.open.len() > 0 && bodies.open.last() == 0
}

/// The open bodies after an opening brace.
pub open spec fn opened(bodies: Bodies) -> Bodies {
    Bodies { open: bodies.open.push(0), counting: bodies.counting }
}

/// The open bodies after a closing brace.
pub open spec fn closed(bodies: Bodies) -> Bodies {
    if bodies.open.len() > 0 {
        Bodies { open: bodies.open.drop_last(), counting: bodies.counting }
    } else {
        bodies
    }
}

/// The open bodies after a character that is no brace: a parenthesis is counted in the innermost.
pub open spec fn counted(bodies: Bodies, c: char) -> Bodies {
    let open = bodies.open;
    if bodies.counting && open.len() > 0 && c == '(' {
        Bodies { open: open.drop_last().push(open.last() + 1), counting: true }
    } else if bodies.counting && open.len() > 0 && c == ')' {
        Bodies { open: open.drop_last().push(one_less(open.last())), counting: true }
    } else {
        bodies
    }
}

/// Every parenthesis that is opened in a struct body is closed in that body, where `bodies` are
/// open before the text.
pub open spec fn closes_parentheses(s: Seq<char>, bodies: Bodies) -> bool
    decreases s.len(),
{
    if s.len() == 0 {
        forall|i: int| 0 <= i < bodies.open.len() ==> bodies.open[i] == 0
    } else if s[0] == '{' {
        closes_parentheses(s.drop_first(), opened(bodies))
    } else if s[0] == '}' {
        (inside(bodies) ==> between_fields(bodies)) && closes_parentheses(
            s.drop_first(),
            closed(bodies),
        )
    } else {
        closes_parentheses(s.drop_first(), counted(bodies, s[0]))
    }
}

/// No body is open, and parentheses are counted.
pub open spec fn outside() -> Bodies {
    Bodies { open: seq![], counting: true }
}

/// No body is open before a text. Parentheses are counted if they are all closed in it: one that
/// never is has nothing inside.
pub open spec fn before(s: Seq<char>) -> Bodies {
    Bodies { open: seq![], counting: closes_parentheses(s, outside()) }
}

/// A text without the labels of struct fields, where `bodies` are open before it and
/// `at_field_start` tells that a field is about to begin.
///
/// A label is dropped with its colon. All else stays. Inside parentheses no field begins.
pub open spec fn unlabeled(s: Seq<char>, bodies: Bodies, at_field_start: bool) -> Seq<char>
    decreases s.len(),
{
    proof {
        lemma_after_identifier_is_shorter(s);
    }
    if s.len() == 0 {
        seq![]
    } else if s[0] == '{' {
        seq![s[0]] + unlabeled(s.drop_first(), opened(bodies), true)
    } else if s[0] == '}' {
        seq![s[0]] + unlabeled(s.drop_first(), closed(bodies), false)
    } else if between_fields(bodies) && (s[0] == ',' || is_newline(s[0])) {
        seq![s[0]] + unlabeled(s.drop_first(), bodies, true)
    } else if inside(bodies) && at_field_start && begins_identifier(s[0]) {
        if begins_with_label(s) {
            unlabeled(after_identifier(s).drop_first(), bodies, false)
        } else {
            let n = identifier_length(s) as int;
            s.take(n) + unlabeled(s.skip(n), bodies, false)
        }
    } else {
        seq![s[0]] + unlabeled(
            s.drop_first(),
            counted(bodies, s[0]),
            at_field_start && (!inside(bodies) || white_space(s[0])),
        )
    }
}

pub open spec fn one_less(n: nat) -> nat {
    if n > 0 {
        (n - 1) as nat
    } else {
        0
    }
}

/// A text without the labels of struct fields.
pub open spec fn stripped(s: Seq<char>) -> Seq<char> {
    unlabeled(s, before(s), false)
}

/// The open struct bodies while a text is read.
struct OpenBodies {
    open: Vec<usize>,
    counting: bool,
}

impl View for OpenBodies {
    type V = Bodies;

    closed spec fn view(&self) -> Bodies {
        Bodies {
            open: Seq::new(self.open@.len(), |i: int| self.open@[i] as nat),
            counting: self.counting,
        }
    }
}

impl OpenBodies {
    /// No number of parentheses is greater than `n`.
    spec fn at_most(&self, n: int) -> bool {
        forall|i: int| 0 <= i < self.open@.len() ==> (#[trigger] self.open@[i]) <= n
    }

    fn new(counting: bool) -> (r: Self)
        ensures
            r@ == (Bodies { open: seq![], counting }),
            r.at_most(0),
    {
        let r = OpenBodies { open: Vec::new(), counting };
        assert(r@.open =~= seq![]);
        r
    }

    fn inside(&self) -> (r: bool)
        ensures
            r == inside(self@),
    {
        self.open.len() > 0
    }

    fn between_fields(&self) -> (r: bool)
        ensures
            r == between_fields(self@),
    {
        self.open.len() > 0 && self.open[self.open.len() - 1] == 0
    }

    fn all_closed(&self) -> (r: bool)
        ensures
            r == forall|i: int| 0 <= i < self@.open.len() ==> self@.open[i] == 0,
    {
        for i in 0..self.open.len()
            invariant
                forall|j: int| 0 <= j < i ==> self@.open[j] == 0,
        {
            if self.open[i] != 0 {
                assert(self@.open[i as int] != 0);
                return false;
            }
        }
        true
    }

    fn open_one(&mut self)
        ensures
            final(self)@ == opened(old(self)@),
            forall|n: int| 0 <= n && old(self).at_most(n) ==> final(self).at_most(n),
    {
        self.open.push(0);
        assert(self@.open =~= opened(old(self)@).open);
    }

    fn close_one(&mut self)
        ensures
            final(self)@ == closed(old(self)@),
            forall|n: int| old(self).at_most(n) ==> final(self).at_most(n),
    {
        if self.open.len() > 0 {
            self.open.pop();
        }
        assert(self@.open =~= closed(old(self)@).open);
    }

    fn count(&mut self, c: char)
        requires
            old(self).at_most(usize::MAX - 1),
        ensures
            final(self)@ == counted(old(self)@, c),
            forall|n: int| old(self).at_most(n) ==> final(self).at_most(n + 1),
    {
        let n = self.open.len();
        if self.counting && n > 0 {
            let inner: usize = self.open[n - 1];
            if c == '(' {
                self.open.set(n - 1, inner + 1);
            } else if c == ')' && inner > 0 {
                self.open.set(n - 1, inner - 1);
            }
        }
        assert(self@.open =~= counted(old(self)@, c).open);
    }
}

/// Whether every parenthesis that is opened in a struct body is closed in that body.
fn parentheses_close(chars: &Vec<char>) -> (r: bool)
    ensures
        r == closes_parentheses(chars@, outside()),
{
    let mut bodies = OpenBodies::new(true);
    let ghost s = chars@;
    assert(s.skip(0) =~= s);
    assert(bodies@ == outside());
    for i in 0..chars.len()
        invariant
            chars@ == s,
            bodies.at_most(i as int),
            closes_parentheses(s, outside()) == closes_parentheses(s.skip(i as int), bodies@),
    {
        let c = chars[i];
        assert(s.skip(i as int).drop_first() =~= s.skip(i + 1));
        if c == '{' {
            bodies.open_one();
        } else if c == '}' {
            if bodies.inside() && !bodies.between_fields() {
                return false;
            }
            bodies.close_one();
        } else {
            bodies.count(c);
        }
    }
    bodies.all_closed()
}

/// Remove the `ident :` prefix from each struct field.
///
/// Inside a `{...}` struct body, an identifier that begins a field and is followed, after optional
/// blanks, by `:` is a field label and is dropped along with the colon. Everything else is kept,
/// also the names inside the parentheses of a field's type.
pub fn strip_field_labels(value: &str) -> (r: String)
    ensures
        r@ == stripped(value@),
{
    let chars = characters(value);
    let n = chars.len();
    let ghost s = value@;
    let mut out = String::new();
    let mut i: usize = 0;
    let mut bodies = OpenBodies::new(parentheses_close(&chars));
    let mut at_field_start = false;
    assert(s.skip(0) =~= s);
    while i < n
        invariant
            n == chars@.len(),
            chars@ == s,
            i <= n,
            bodies.at_most(i as int),
            stripped(s) =~= out@ + unlabeled(s.skip(i as int), bodies@, at_field_start),
        decreases n - i,
    {
        let c = chars[i];
        let ghost t = s.skip(i as int);
        let ghost before = out@;
        proof {
            assert(t[0] == c);
            assert(t.drop_first() =~= s.skip(i + 1));
        }
        if c == '{' {
            bodies.open_one();
            at_field_start = true;
            out.push('{');
            i += 1;
        } else if c == '}' {
            bodies.close_one();
            at_field_start = false;
            out.push('}');
            i += 1;
        } else if bodies.between_fields() && (c == ',' || c == '\n' || c == '\r') {
            at_field_start = true;
            out.push(c);
            i += 1;
        } else if bodies.inside() && at_field_start && (c.is_alphabetic() || c == '_') {
            let start = i;
            proof {
                lemma_identifier_length(t);
            }
            let len = identifier_end(&chars, start);
            let mut j = len;
            let ghost u = s.skip(len as int);
            proof {
                lemma_blank_length(u);
                assert(t.skip(identifier_length(t) as int) =~= u);
            }
            j = blanks_end(&chars, j);
            let ghost v = s.skip(j as int);
            proof {
                assert(u.skip(blank_length(u) as int) =~= v);
                assert(after_identifier(t) == v);
            }
            if j < n && chars[j] == ':' && (j + 1 == n || chars[j + 1] != ':') {
                assert(v[0] == ':');
                assert(v.len() > 1 ==> v[1] == chars@[j + 1]);
                assert(v.drop_first() =~= s.skip(j + 1));
                i = j + 1;
            } else {
                proof {
                    if v.len() > 0 {
                        assert(v[0] == chars@[j as int]);
                    }
                    if v.len() > 1 {
                        assert(v[1] == chars@[j + 1]);
                    }
                    assert(!begins_with_label(t));
                }
                let mut k = start;
                while k < len
                    invariant
                        start <= k <= len <= n,
                        n == chars@.len(),
                        chars@ == s,
                        out@ =~= before + s.subrange(start as int, k as int),
                    decreases len - k,
                {
                    out.push(chars[k]);
                    k += 1;
                }
                assert(s.subrange(start as int, len as int) =~= t.take(
                    identifier_length(t) as int,
                ));
                i = len;
            }
            at_field_start = false;
        } else {
            if bodies.inside() && !c.is_whitespace() {
                at_field_start = false;
            }
            bodies.count(c);
            out.push(c);
            i += 1;
        }
    }
    assert(s.skip(n as int) =~= Seq::<char>::empty());
    out
}

fn identifier_end(chars: &Vec<char>, start: usize) -> (r: usize)
    requires
        start <= chars@.len(),
    ensures
        start <= r <= chars@.len(),
        r == start + identifier_length(chars@.skip(start as int)),
{
    let mut i = start;
    while i < chars.len() && (chars[i].is_alphanumeric() || chars[i] == '_' || chars[i] == '-')
        invariant
            start <= i <= chars@.len(),
            start + identifier_length(chars@.skip(start as int)) == i + identifier_length(
                chars@.skip(i as int),
            ),
        decreases chars@.len() - i,
    {
        assert(chars@.skip(i as int).drop_first() =~= chars@.skip(i + 1));
        i += 1;
    }
    i
}

fn blanks_end(chars: &Vec<char>, start: usize) -> (r: usize)
    requires
        start <= chars@.len(),
    ensures
        start <= r <= chars@.len(),
        r == start + blank_length(chars@.skip(start as int)),
{
    let mut i = start;
    while i < chars.len() && (chars[i] == ' ' || chars[i] == '\t')
        invariant
            start <= i <= chars@.len(),
            start + blank_length(chars@.skip(start as int)) == i + blank_length(
                chars@.skip(i as int),
            ),
        decreases chars@.len() - i,
    {
        assert(chars@.skip(i as int).drop_first() =~= chars@.skip(i + 1));
        i += 1;
    }
    i
}

/// The whitespace of pretty-printed text.
pub open spec fn is_space(c: char) -> bool {
    is_blank(c) || is_newline(c)
}

/// The number of spaces at the beginning.
pub open spec fn space_length(s: Seq<char>) -> nat
    decreases s.len(),
{
    if s.len() > 0 && is_space(s[0]) {
        1 + space_length(s.drop_first())
    } else {
        0
    }
}

pub open spec fn has_newline(s: Seq<char>) -> bool {
    exists|i: int| 0 <= i < s.len() && is_newline(#[trigger] s[i])
}

/// What follows the spaces at the beginning.
pub open spec fn after_spaces(s: Seq<char>) -> Seq<char> {
    s.skip(space_length(s) as int)
}

/// The text begins with another field: not with the end of the body or with a comma.
pub open spec fn begins_with_field(s: Seq<char>) -> bool {
    s.len() > 0 && s[0] != '}' && s[0] != ','
}

/// The spaces at the beginning separate two fields: there is a line break among them.
pub open spec fn begins_with_line_break(s: Seq<char>) -> bool {
    has_newline(s.take(space_length(s) as int)) && begins_with_field(after_spaces(s))
}

/// How far the spaces at the beginning go.
pub proof fn lemma_space_length(s: Seq<char>)
    ensures
        space_length(s) <= s.len(),
        s.len() > 0 && is_space(s[0]) ==> space_length(s) > 0,
        forall|i: int| 0 <= i < space_length(s) ==> is_space(#[trigger] s[i]),
        space_length(s) < s.len() ==> !is_space(s[space_length(s) as int]),
    decreases s.len(),
{
    if s.len() > 0 && is_space(s[0]) {
        let t = s.drop_first();
        lemma_space_length(t);
        assert forall|i: int| 0 <= i < space_length(s) implies is_space(#[trigger] s[i]) by {
            if i > 0 {
                assert(t[i - 1] == s[i]);
            }
        }
        if space_length(s) < s.len() {
            assert(t[space_length(t) as int] == s[space_length(s) as int]);
        }
    }
}

/// Where in a struct body a place is.
pub enum Place {
    /// No field has begun, or a separator has ended the last one.
    Start,
    /// A field has begun.
    Field,
    /// An inner body has ended, and nothing but spaces has come since.
    AfterBody,
    /// After an inner body a separator has come, which is not written yet.
    AfterSeparator,
}

/// A character that no field begins with: it goes on with the type that an inner body is part of.
/// Whitespace other than the spaces of pretty-printed text counts here too.
pub open spec fn is_continuation(c: char) -> bool {
    c == ')' || c == '>' || c == ']' || c == ';' || c == ':' || white_space(c)
}

/// The separator that is still to be written before a field.
pub open spec fn owed(place: Place) -> Seq<char> {
    match place {
        Place::AfterSeparator => seq![','],
        _ => seq![],
    }
}

/// The place after the end of a body, with `bodies` open around it.
pub open spec fn after_body(bodies: Bodies) -> Place {
    if inside(bodies) {
        Place::AfterBody
    } else {
        Place::Start
    }
}

/// The place after a character of a field.
pub open spec fn in_field(bodies: Bodies, place: Place) -> Place {
    if inside(bodies) {
        Place::Field
    } else {
        place
    }
}

/// The place after a comma in a body.
pub open spec fn after_comma(place: Place) -> Place {
    match place {
        Place::Start => Place::Start,
        Place::Field => Place::Start,
        _ => Place::AfterSeparator,
    }
}

/// The place after the spaces at the beginning of a text: a line break after an inner body
/// separates fields.
pub open spec fn after_run(s: Seq<char>, bodies: Bodies, place: Place) -> Place {
    if between_fields(bodies) && place is AfterBody && has_newline(s.take(space_length(s) as int)) {
        Place::AfterSeparator
    } else {
        place
    }
}

/// The spaces at the beginning of a text end a field.
pub open spec fn ends_field(s: Seq<char>, bodies: Bodies, place: Place) -> bool {
    between_fields(bodies) && place is Field && begins_with_line_break(s)
}

/// A text with its whitespace and field separators unified, where `bodies` are open before it,
/// `place` tells where in the innermost body it begins, and `spaced` tells that a space more would
/// be redundant.
///
/// In a struct body each separator, a comma or a line break between two fields, becomes one
/// comma. All other whitespace becomes single spaces. The separator after a field that ends with
/// an inner body is written when the next field begins, and dropped if none does.
pub open spec fn unified(s: Seq<char>, bodies: Bodies, place: Place, spaced: bool) -> Seq<char>
    decreases s.len(),
{
    proof {
        lemma_space_length(s);
    }
    if s.len() == 0 {
        seq![]
    } else if s[0] == '{' {
        owed(place) + (seq![s[0]] + unified(s.drop_first(), opened(bodies), Place::Start, false))
    } else if s[0] == '}' {
        seq![s[0]] + unified(s.drop_first(), closed(bodies), after_body(closed(bodies)), false)
    } else if inside(bodies) && s[0] == ',' {
        if place is Field {
            seq![s[0]] + unified(s.drop_first(), bodies, Place::Start, false)
        } else {
            unified(s.drop_first(), bodies, after_comma(place), spaced)
        }
    } else if is_space(s[0]) {
        if ends_field(s, bodies, place) {
            seq![','] + unified(after_spaces(s), bodies, Place::Start, false)
        } else if !spaced {
            seq![' '] + unified(after_spaces(s), bodies, after_run(s, bodies, place), true)
        } else {
            unified(after_spaces(s), bodies, after_run(s, bodies, place), true)
        }
    } else {
        let rest = seq![s[0]] + unified(
            s.drop_first(),
            counted(bodies, s[0]),
            in_field(bodies, place),
            false,
        );
        if is_continuation(s[0]) {
            rest
        } else {
            owed(place) + rest
        }
    }
}

/// The punctuation that spaces next to it do not matter for.
pub open spec fn is_punctuation(c: char) -> bool {
    c == '{' || c == '}' || c == '(' || c == ')' || c == ',' || c == ':' || c == '<' || c == '>'
}

/// The first `n` characters without the spaces that have punctuation next to them.
pub open spec fn tightened(s: Seq<char>, n: nat) -> Seq<char>
    decreases n,
{
    if n == 0 {
        seq![]
    } else {
        let i = n - 1;
        let before = tightened(s, i as nat);
        if s[i] == ' ' && ((i > 0 && is_punctuation(s[i - 1])) || (i + 1 < s.len()
            && is_punctuation(s[i + 1]))) {
            before
        } else {
            before.push(s[i])
        }
    }
}

/// A text without the whitespace at its end.
pub open spec fn trimmed(s: Seq<char>) -> Seq<char>
    decreases s.len(),
{
    if s.len() > 0 && white_space(s.last()) {
        trimmed(s.drop_last())
    } else {
        s
    }
}

/// A text with its whitespace and field separators normalized.
pub open spec fn normalized(s: Seq<char>) -> Seq<char> {
    let u = unified(s, before(s), Place::Start, true);
    trimmed(tightened(u, u.len()))
}

/// The canonical form of a signature or a type.
pub open spec fn canonical(s: Seq<char>) -> Seq<char> {
    normalized(stripped(s))
}

fn is_space_char(c: char) -> (r: bool)
    ensures
        r == is_space(c),
{
    c == ' ' || c == '\t' || c == '\n' || c == '\r'
}

fn is_punctuation_char(c: char) -> (r: bool)
    ensures
        r == is_punctuation(c),
{
    c == '{' || c == '}' || c == '(' || c == ')' || c == ',' || c == ':' || c == '<' || c == '>'
}

/// Where the spaces that begin at `start` end, and whether there is a line break among them.
fn spaces_end(chars: &Vec<char>, start: usize) -> (r: (usize, bool))
    requires
        start <= chars@.len(),
    ensures
        start <= r.0 <= chars@.len(),
        r.0 == start + space_length(chars@.skip(start as int)),
        r.1 == has_newline(chars@.subrange(start as int, r.0 as int)),
{
    let mut i = start;
    let mut newline = false;
    while i < chars.len() && is_space_char(chars[i])
        invariant
            start <= i <= chars@.len(),
            start + space_length(chars@.skip(start as int)) == i + space_length(
                chars@.skip(i as int),
            ),
            newline == has_newline(chars@.subrange(start as int, i as int)),
        decreases chars@.len() - i,
    {
        let ghost run = chars@.subrange(start as int, i as int);
        let ghost next = chars@.subrange(start as int, i + 1);
        let here = chars[i] == '\n' || chars[i] == '\r';
        proof {
            assert(chars@.skip(i as int).drop_first() =~= chars@.skip(i + 1));
            assert(next =~= run.push(chars@[i as int]));
            if here {
                assert(is_newline(next[i - start]));
            }
            if newline {
                let j = choose|j: int| 0 <= j < run.len() && is_newline(#[trigger] run[j]);
                assert(next[j] == run[j]);
            }
            if has_newline(next) && !here {
                let j = choose|j: int| 0 <= j < next.len() && is_newline(#[trigger] next[j]);
                assert(next[j] == run[j]);
            }
        }
        newline = newline || here;
        i += 1;
    }
    (i, newline)
}

/// Whether no field begins with a character.
fn continues(c: char) -> (r: bool)
    ensures
        r == is_continuation(c),
{
    c == ')' || c == '>' || c == ']' || c == ';' || c == ':' || c.is_whitespace()
}

/// A text that is being unified: what is written of it, and where it has been read to.
struct Unifier {
    out: Vec<char>,
    bodies: OpenBodies,
    place: Place,
}

impl Unifier {
    /// The whole unified text, if `rest` is what has not been read.
    spec fn result(&self, rest: Seq<char>) -> Seq<char> {
        self.out@ + unified(
            rest,
            self.bodies@,
            self.place,
            self.out@.len() == 0 || self.out@.last() == ' ',
        )
    }

    fn open_brace(&mut self, Ghost(rest): Ghost<Seq<char>>)
        requires
            rest.len() > 0,
            rest[0] == '{',
        ensures
            final(self).result(rest.drop_first()) == old(self).result(rest),
            forall|n: int|
                0 <= n && old(self).bodies.at_most(n) ==> final(self).bodies.at_most(n),
    {
        if let Place::AfterSeparator = self.place {
            self.out.push(',');
        }
        self.out.push('{');
        self.bodies.open_one();
        self.place = Place::Start;
        assert(self.result(rest.drop_first()) =~= old(self).result(rest));
    }

    fn close_brace(&mut self, Ghost(rest): Ghost<Seq<char>>)
        requires
            rest.len() > 0,
            rest[0] == '}',
        ensures
            final(self).result(rest.drop_first()) == old(self).result(rest),
            forall|n: int| old(self).bodies.at_most(n) ==> final(self).bodies.at_most(n),
    {
        self.out.push('}');
        self.bodies.close_one();
        self.place = if self.bodies.inside() {
            Place::AfterBody
        } else {
            Place::Start
        };
        assert(self.result(rest.drop_first()) =~= old(self).result(rest));
    }

    /// Reads a comma in a struct body.
    fn comma(&mut self, Ghost(rest): Ghost<Seq<char>>)
        requires
            rest.len() > 0,
            rest[0] == ',',
            inside(old(self).bodies@),
        ensures
            final(self).result(rest.drop_first()) == old(self).result(rest),
            final(self).bodies == old(self).bodies,
    {
        match self.place {
            Place::Start => {},
            Place::Field => {
                self.out.push(',');
                self.place = Place::Start;
            },
            Place::AfterBody => {
                self.place = Place::AfterSeparator;
            },
            Place::AfterSeparator => {},
        }
        assert(self.result(rest.drop_first()) =~= old(self).result(rest));
    }

    /// Reads all spaces at the beginning of `rest`.
    fn spaces(&mut self, newline: bool, field_follows: bool, Ghost(rest): Ghost<Seq<char>>)
        requires
            rest.len() > 0,
            is_space(rest[0]),
            newline == has_newline(rest.take(space_length(rest) as int)),
            field_follows == begins_with_field(after_spaces(rest)),
        ensures
            final(self).result(after_spaces(rest)) == old(self).result(rest),
            final(self).bodies == old(self).bodies,
    {
        let separates = newline && self.bodies.between_fields();
        let n = self.out.len();
        let spaced = n == 0 || self.out[n - 1] == ' ';
        let ends = separates && field_follows && match self.place {
            Place::Field => true,
            _ => false,
        };
        if ends {
            self.out.push(',');
            self.place = Place::Start;
        } else {
            if !spaced {
                self.out.push(' ');
            }
            if separates {
                if let Place::AfterBody = self.place {
                    self.place = Place::AfterSeparator;
                }
            }
        }
        assert(self.result(after_spaces(rest)) =~= old(self).result(rest));
    }

    /// Reads a character that is no brace, no space, and no comma in a struct body.
    fn character(&mut self, c: char, Ghost(rest): Ghost<Seq<char>>)
        requires
            rest.len() > 0,
            rest[0] == c,
            c != '{' && c != '}' && !is_space(c) && !(inside(old(self).bodies@) && c == ','),
            old(self).bodies.at_most(usize::MAX - 1),
        ensures
            final(self).result(rest.drop_first()) == old(self).result(rest),
            forall|n: int| old(self).bodies.at_most(n) ==> final(self).bodies.at_most(n + 1),
    {
        if let Place::AfterSeparator = self.place {
            if !continues(c) {
                self.out.push(',');
            }
        }
        self.out.push(c);
        if self.bodies.inside() {
            self.place = Place::Field;
        }
        self.bodies.count(c);
        assert(self.result(rest.drop_first()) =~= old(self).result(rest));
    }
}

fn unify(chars: &Vec<char>) -> (r: Vec<char>)
    ensures
        r@ == unified(chars@, before(chars@), Place::Start, true),
{
    let n = chars.len();
    let ghost s = chars@;
    let mut unifier = Unifier {
        out: Vec::new(),
        bodies: OpenBodies::new(parentheses_close(chars)),
        place: Place::Start,
    };
    let mut i: usize = 0;
    let ghost whole = unified(s, before(s), Place::Start, true);
    assert(s.skip(0) =~= s);
    assert(unifier.result(s) =~= whole);
    while i < n
        invariant
            n == chars@.len(),
            chars@ == s,
            i <= n,
            unifier.bodies.at_most(i as int),
            unifier.result(s.skip(i as int)) == whole,
        decreases n - i,
    {
        let c = chars[i];
        let ghost t = s.skip(i as int);
        proof {
            assert(t[0] == c);
            assert(t.drop_first() =~= s.skip(i + 1));
            lemma_space_length(t);
        }
        if c == '{' {
            unifier.open_brace(Ghost(t));
            i += 1;
        } else if c == '}' {
            unifier.close_brace(Ghost(t));
            i += 1;
        } else if unifier.bodies.inside() && c == ',' {
            unifier.comma(Ghost(t));
            i += 1;
        } else if is_space_char(c) {
            let (end, newline) = spaces_end(chars, i);
            let field_follows = end < n && chars[end] != '}' && chars[end] != ',';
            proof {
                assert(after_spaces(t) =~= s.skip(end as int));
                assert(t.take(space_length(t) as int) =~= s.subrange(i as int, end as int));
                if end < n {
                    assert(after_spaces(t)[0] == chars@[end as int]);
                }
            }
            unifier.spaces(newline, field_follows, Ghost(t));
            i = end;
        } else {
            unifier.character(c, Ghost(t));
            i += 1;
        }
    }
    assert(s.skip(n as int) =~= Seq::<char>::empty());
    assert(unifier.out@ =~= whole);
    unifier.out
}

fn tighten(chars: &Vec<char>) -> (r: Vec<char>)
    ensures
        r@ == tightened(chars@, chars@.len()),
{
    let n = chars.len();
    let mut out: Vec<char> = Vec::new();
    for i in 0..n
        invariant
            n == chars@.len(),
            out@ == tightened(chars@, i as nat),
    {
        if !(chars[i] == ' ' && ((i > 0 && is_punctuation_char(chars[i - 1])) || (n - i > 1
            && is_punctuation_char(chars[i + 1])))) {
            out.push(chars[i]);
        }
    }
    out
}

fn trim_end(chars: Vec<char>) -> (r: Vec<char>)
    ensures
        r@ == trimmed(chars@),
{
    let mut out = chars;
    while out.len() > 0 && out[out.len() - 1].is_whitespace()
        invariant
            trimmed(out@) == trimmed(chars@),
        decreases out@.len(),
    {
        out.pop();
    }
    out
}

/// Normalize whitespace and field separators so the single-line and multi-line pretty-printed
/// forms of the same type compare equal.
///
/// Inside a struct body the fields are separated by `, ` (single-line) or a line break
/// (multi-line). Both become a single `,`. Elsewhere, also inside the parentheses of a field's type,
/// whitespace runs collapse to a single space, which is dropped next to structural punctuation.
pub fn normalize(value: &str) -> (r: String)
    ensures
        r@ == normalized(value@),
{
    text_of(&trim_end(tighten(&unify(&characters(value)))))
}

/// A signature or type text in a form that ignores struct field labels and layout.
///
/// It preserves the nominal contract: field types, field count, field order, struct names, `repr`
/// attributes (`@packed`, etc.), and all other syntax.
pub fn canonicalize_type_string(value: &str) -> (r: String)
    ensures
        r@ == canonical(value@),
{
    normalize(strip_field_labels(value).as_str())
}

} // verus!
