//! The style parser: from a text to a style sheet.
//!
//! As for markup, the grammar is written down as spec functions on a
//! sequence of characters and an index into it, and the parser's methods
//! return what these functions say.

use crate::boundary::same_text;
use crate::parser;
use crate::parser::{
    chars_of, lemma_run_end, lemma_run_end_unique, lemma_whitespace_end, run_end, whitespace_end,
    ParseError,
};
use crate::strmap::{entry_views, insert_entry, lemma_entry_views_insert};
use crate::stylesheet::{
    outranks, rules_view, selectors_view, Color, Declarations, Rule, RuleView, Selector,
    SelectorView, Stylesheet, Unit, Value, ValueView,
};
use vstd::prelude::*;

verus! {

/// A character of an identifier: a letter, a digit, `-` or `_`.
pub open spec fn is_identifier_char(c: char) -> bool {
    ('a' <= c && c <= 'z') || c == '-' || c == '_' || ('A' <= c && c <= 'Z') || ('0' <= c && c
        <= '9')
}

/// A character at which a tag name may start in a selector: a letter, `-`
/// or `_`.
pub open spec fn is_identifier_start(c: char) -> bool {
    ('a' <= c && c <= 'z') || c == '-' || c == '_' || ('A' <= c && c <= 'Z')
}

/// Where the identifier that starts at `i` ends.
pub open spec fn identifier_end(s: Seq<char>, i: int) -> int {
    run_end(s, i, |c: char| is_identifier_char(c))
}

/// A lower-case letter.
pub open spec fn is_lower(c: char) -> bool {
    'a' <= c && c <= 'z'
}

/// A character of a property name: a lower-case letter or `-`.
pub open spec fn is_property_char(c: char) -> bool {
    ('a' <= c && c <= 'z') || c == '-'
}

/// A character of a magnitude: a digit or the decimal point.
pub open spec fn is_numeric(c: char) -> bool {
    ('0' <= c && c <= '9') || c == '.'
}

/// A character of a unit: a lower-case letter or `%`.
pub open spec fn is_unit_char(c: char) -> bool {
    ('a' <= c && c <= 'z') || c == '%'
}

/// A hexadecimal digit, in either case.
pub open spec fn is_hex_digit(c: char) -> bool {
    ('0' <= c && c <= '9') || ('a' <= c && c <= 'f') || ('A' <= c && c <= 'F')
}

/// The number that a hexadecimal digit stands for.
pub open spec fn hex_value(c: char) -> int {
    if '0' <= c && c <= '9' {
        c as int - '0' as int
    } else if 'a' <= c && c <= 'f' {
        c as int - 'a' as int + 10
    } else {
        c as int - 'A' as int + 10
    }
}

/// The byte that two hexadecimal digits stand for.
pub open spec fn hex_pair(high: char, low: char) -> int {
    hex_value(high) * 16 + hex_value(low)
}

/// A selector that selects by nothing.
pub open spec fn no_selector() -> SelectorView {
    SelectorView { tag_name: None, id: None, class: Seq::empty() }
}

/// The selector from `i` on, added to `found`, and where it ends.
///
/// `#` and an identifier give the id, and a later one replaces it. `.` and
/// an identifier add a class. `*` adds nothing. An identifier gives the tag
/// name. Any other character ends the selector, and so does the end of the
/// text.
pub open spec fn spec_selector_from(s: Seq<char>, i: int, found: SelectorView) -> (
    SelectorView,
    int,
)
    decreases s.len() - i,
{
    if !(0 <= i < s.len()) {
        (found, i)
    } else if s[i] == '#' {
        let end = identifier_end(s, i + 1);
        proof {
            lemma_run_end(s, i + 1, |c: char| is_identifier_char(c));
        }
        spec_selector_from(
            s,
            end,
            SelectorView {
                tag_name: found.tag_name,
                id: Some(s.subrange(i + 1, end)),
                class: found.class,
            },
        )
    } else if s[i] == '.' {
        let end = identifier_end(s, i + 1);
        proof {
            lemma_run_end(s, i + 1, |c: char| is_identifier_char(c));
        }
        spec_selector_from(
            s,
            end,
            SelectorView {
                tag_name: found.tag_name,
                id: found.id,
                class: found.class.push(s.subrange(i + 1, end)),
            },
        )
    } else if s[i] == '*' {
        spec_selector_from(s, i + 1, found)
    } else if is_identifier_start(s[i]) {
        let end = identifier_end(s, i);
        proof {
            lemma_run_end(s, i + 1, |c: char| is_identifier_char(c));
        }
        spec_selector_from(
            s,
            end,
            SelectorView { tag_name: Some(s.subrange(i, end)), id: found.id, class: found.class },
        )
    } else {
        (found, i)
    }
}

/// The selector at `i`, and where it ends. It may be empty.
pub open spec fn spec_selector(s: Seq<char>, i: int) -> (SelectorView, int) {
    spec_selector_from(s, i, no_selector())
}

/// A selector ends in the text, at or behind where it starts.
pub proof fn lemma_selector_end(s: Seq<char>, i: int, found: SelectorView)
    requires
        0 <= i <= s.len(),
    ensures
        i <= spec_selector_from(s, i, found).1 <= s.len(),
    decreases s.len() - i,
{
    if i < s.len() {
        lemma_run_end(s, i + 1, |c: char| is_identifier_char(c));
        let end = identifier_end(s, i + 1);
        if s[i] == '#' {
            lemma_selector_end(
                s,
                end,
                SelectorView {
                    tag_name: found.tag_name,
                    id: Some(s.subrange(i + 1, end)),
                    class: found.class,
                },
            );
        } else if s[i] == '.' {
            lemma_selector_end(
                s,
                end,
                SelectorView {
                    tag_name: found.tag_name,
                    id: found.id,
                    class: found.class.push(s.subrange(i + 1, end)),
                },
            );
        } else if s[i] == '*' {
            lemma_selector_end(s, i + 1, found);
        } else if is_identifier_start(s[i]) {
            let end = identifier_end(s, i);
            lemma_selector_end(
                s,
                end,
                SelectorView {
                    tag_name: Some(s.subrange(i, end)),
                    id: found.id,
                    class: found.class,
                },
            );
        }
    }
}

/// The selectors from `i` on, in the order in which they are written, added
/// to `found`: a selector between whitespace, then `,` and more selectors,
/// or `{`, where the list ends and which is not consumed.
pub open spec fn spec_selectors_from(s: Seq<char>, i: int, found: Seq<SelectorView>) -> Result<
    (Seq<SelectorView>, int),
    ParseError,
>
    decreases s.len() - i,
{
    let (selector, end) = spec_selector(s, whitespace_end(s, i));
    let at = whitespace_end(s, end);
    if !(0 <= i <= at < s.len()) {
        Err(ParseError::EndOfInput)
    } else if s[at] == ',' {
        spec_selectors_from(s, at + 1, found.push(selector))
    } else if s[at] == '{' {
        Ok((found.push(selector), at))
    } else {
        Err(ParseError::UnexpectedToken)
    }
}

/// The place of `selector` among `sorted`: before the first one that does
/// not outrank it.
pub open spec fn rank_place(sorted: Seq<SelectorView>, selector: SelectorView, from: int) -> int
    decreases sorted.len() - from,
{
    if 0 <= from < sorted.len() && outranks(
        sorted[from].specificity(),
        selector.specificity(),
    ) {
        rank_place(sorted, selector, from + 1)
    } else {
        from
    }
}

/// The selectors of `list` by falling specificity. Selectors of the same
/// specificity keep the order that they have in `list`.
pub open spec fn ranked(list: Seq<SelectorView>) -> Seq<SelectorView>
    decreases list.len(),
{
    if list.len() == 0 {
        Seq::empty()
    } else {
        let rest = ranked(list.drop_first());
        rest.insert(rank_place(rest, list[0], 0), list[0])
    }
}

/// The selectors of a rule at `i`, the most specific first, and the index
/// of the `{` behind them.
pub open spec fn spec_selectors(s: Seq<char>, i: int) -> Result<
    (Seq<SelectorView>, int),
    ParseError,
> {
    match spec_selectors_from(s, i, Seq::empty()) {
        Err(e) => Err(e),
        Ok((list, end)) => Ok((ranked(list), end)),
    }
}

/// A keyword at `i`: lower-case letters, as many as there are.
pub open spec fn spec_keyword(s: Seq<char>, i: int) -> (ValueView, int) {
    let end = run_end(s, i, |c: char| is_lower(c));
    (ValueView::Keyword(s.subrange(i, end)), end)
}

/// A decimal numeral: at least one digit, and at most one decimal point.
/// Said of a sequence of digits and points.
pub open spec fn is_decimal(numeral: Seq<char>) -> bool {
    &&& exists|k: int| 0 <= k < numeral.len() && numeral[k] != '.'
    &&& forall|i: int, j: int|
        0 <= i < numeral.len() && 0 <= j < numeral.len() && numeral[i] == '.' && numeral[j]
            == '.' ==> i == j
}

/// The unit that `name` names.
pub open spec fn spec_unit(name: Seq<char>) -> Option<Unit> {
    if name == "%"@ {
        Some(Unit::Percent)
    } else if name == "pt"@ {
        Some(Unit::Pt)
    } else if name == "px"@ {
        Some(Unit::Px)
    } else if name == "wh"@ {
        Some(Unit::Wh)
    } else if name == "vh"@ {
        Some(Unit::Vh)
    } else if name == "em"@ {
        Some(Unit::Em)
    } else if name == "rem"@ {
        Some(Unit::Rem)
    } else {
        None
    }
}

/// A length at `i`: digits and points, as many as there are, which must
/// form a decimal numeral, and then lower-case letters and `%`, as many as
/// there are, which must name a unit.
pub open spec fn spec_length(s: Seq<char>, i: int) -> Result<(ValueView, int), ParseError> {
    let number_end = run_end(s, i, |c: char| is_numeric(c));
    let unit_end = run_end(s, number_end, |c: char| is_unit_char(c));
    if !is_decimal(s.subrange(i, number_end)) {
        Err(ParseError::MalformedValue)
    } else {
        match spec_unit(s.subrange(number_end, unit_end)) {
            None => Err(ParseError::MalformedValue),
            Some(unit) => Ok((ValueView::Length(s.subrange(i, number_end), unit), unit_end)),
        }
    }
}

/// `count` hexadecimal digits stand at `i`.
pub open spec fn has_hex_digits(s: Seq<char>, i: int, count: int) -> bool {
    &&& 0 <= i
    &&& i + count <= s.len()
    &&& forall|j: int| i <= j < i + count ==> is_hex_digit(#[trigger] s[j])
}

/// A colour at `i`: one character, which `parse_value` has seen to be `#`,
/// and exactly six hexadecimal digits, two each for red, green and blue.
/// The colour is opaque.
pub open spec fn spec_color(s: Seq<char>, i: int) -> Result<(ValueView, int), ParseError> {
    if !(0 <= i < s.len()) {
        Err(ParseError::EndOfInput)
    } else if !has_hex_digits(s, i + 1, 6) {
        Err(ParseError::MalformedValue)
    } else {
        Ok(
            (
                ValueView::Color(
                    Color {
                        r: hex_pair(s[i + 1], s[i + 2]) as u8,
                        g: hex_pair(s[i + 3], s[i + 4]) as u8,
                        b: hex_pair(s[i + 5], s[i + 6]) as u8,
                        a: 255,
                    },
                ),
                i + 7,
            ),
        )
    }
}

/// A value at `i`: a keyword at a lower-case letter, a length at a digit,
/// a colour at `#`.
pub open spec fn spec_value(s: Seq<char>, i: int) -> Result<(ValueView, int), ParseError> {
    if !(0 <= i < s.len()) {
        Err(ParseError::EndOfInput)
    } else if is_lower(s[i]) {
        Ok(spec_keyword(s, i))
    } else if '0' <= s[i] && s[i] <= '9' {
        spec_length(s, i)
    } else if s[i] == '#' {
        spec_color(s, i)
    } else {
        Err(ParseError::UnexpectedToken)
    }
}

/// A declaration at `i`: a property name, `:`, whitespace, a value and `;`.
pub open spec fn spec_declaration(s: Seq<char>, i: int) -> Result<
    ((Seq<char>, ValueView), int),
    ParseError,
> {
    let colon = run_end(s, i, |c: char| is_property_char(c));
    if !(0 <= colon < s.len()) {
        Err(ParseError::EndOfInput)
    } else if s[colon] != ':' {
        Err(ParseError::UnexpectedToken)
    } else {
        match spec_value(s, whitespace_end(s, colon + 1)) {
            Err(e) => Err(e),
            Ok((value, end)) => {
                if !(0 <= end < s.len()) {
                    Err(ParseError::EndOfInput)
                } else if s[end] != ';' {
                    Err(ParseError::UnexpectedToken)
                } else {
                    Ok(((s.subrange(i, colon), value), end + 1))
                }
            },
        }
    }
}

/// A value that was read ends in the text, at or behind where it starts.
pub proof fn lemma_value_end(s: Seq<char>, i: int)
    requires
        0 <= i <= s.len(),
    ensures
        spec_value(s, i) matches Ok((_, end)) ==> i <= end <= s.len(),
{
    lemma_run_end(s, i, |c: char| is_lower(c));
    lemma_run_end(s, i, |c: char| is_numeric(c));
    lemma_run_end(s, run_end(s, i, |c: char| is_numeric(c)), |c: char| is_unit_char(c));
}

/// A declaration that was read ends behind where it starts.
pub proof fn lemma_declaration_advances(s: Seq<char>, i: int)
    requires
        0 <= i <= s.len(),
    ensures
        spec_declaration(s, i) matches Ok((_, end)) ==> i < end <= s.len(),
{
    lemma_run_end(s, i, |c: char| is_property_char(c));
    let colon = run_end(s, i, |c: char| is_property_char(c));
    if colon < s.len() {
        lemma_whitespace_end(s, colon + 1);
        lemma_value_end(s, whitespace_end(s, colon + 1));
    }
}

/// The declarations from `i` on, added to `found`: whitespace, then `;` or
/// `}`, which is consumed and ends the block, or one more declaration. A
/// property that comes again replaces the value it had.
pub open spec fn spec_declarations_from(
    s: Seq<char>,
    i: int,
    found: Seq<(Seq<char>, ValueView)>,
) -> Result<(Seq<(Seq<char>, ValueView)>, int), ParseError>
    decreases s.len() - i,
{
    let at = whitespace_end(s, i);
    if !(0 <= i <= at < s.len()) {
        Err(ParseError::EndOfInput)
    } else if s[at] == ';' || s[at] == '}' {
        Ok((found, at + 1))
    } else {
        match spec_declaration(s, at) {
            Err(e) => Err(e),
            Ok((pair, end)) => {
                proof {
                    lemma_declaration_advances(s, at);
                }
                spec_declarations_from(s, end, insert_entry(found, pair.0, pair.1))
            },
        }
    }
}

/// A declaration block at `i`: `{` and declarations.
pub open spec fn spec_declarations(s: Seq<char>, i: int) -> Result<
    (Seq<(Seq<char>, ValueView)>, int),
    ParseError,
> {
    if !(0 <= i < s.len()) {
        Err(ParseError::EndOfInput)
    } else if s[i] != '{' {
        Err(ParseError::UnexpectedToken)
    } else {
        spec_declarations_from(s, i + 1, Seq::empty())
    }
}

/// A rule at `i`: selectors and a declaration block.
pub open spec fn spec_rule(s: Seq<char>, i: int) -> Result<(RuleView, int), ParseError> {
    match spec_selectors(s, i) {
        Err(e) => Err(e),
        Ok((selectors, at)) => match spec_declarations(s, at) {
            Err(e) => Err(e),
            Ok((declarations, end)) => Ok((RuleView { selectors, declarations }, end)),
        },
    }
}

/// Selectors that were read end in the text, at a `{`.
pub proof fn lemma_selectors_end(s: Seq<char>, i: int, found: Seq<SelectorView>)
    requires
        0 <= i <= s.len(),
    ensures
        spec_selectors_from(s, i, found) matches Ok((_, end)) ==> i <= end < s.len() && s[end]
            == '{',
    decreases s.len() - i,
{
    lemma_whitespace_end(s, i);
    lemma_selector_end(s, whitespace_end(s, i), no_selector());
    let (selector, end) = spec_selector(s, whitespace_end(s, i));
    lemma_whitespace_end(s, end);
    let at = whitespace_end(s, end);
    if at < s.len() && s[at] == ',' {
        lemma_selectors_end(s, at + 1, found.push(selector));
    }
}

/// Declarations that were read end in the text, behind where they start.
pub proof fn lemma_declarations_end(s: Seq<char>, i: int, found: Seq<(Seq<char>, ValueView)>)
    requires
        0 <= i <= s.len(),
    ensures
        spec_declarations_from(s, i, found) matches Ok((_, end)) ==> i < end <= s.len(),
    decreases s.len() - i,
{
    lemma_whitespace_end(s, i);
    let at = whitespace_end(s, i);
    if at < s.len() && !(s[at] == ';' || s[at] == '}') {
        lemma_declaration_advances(s, at);
        match spec_declaration(s, at) {
            Err(e) => {},
            Ok((pair, end)) => {
                lemma_declarations_end(s, end, insert_entry(found, pair.0, pair.1));
            },
        }
    }
}

/// A rule that was read ends behind where it starts.
pub proof fn lemma_rule_advances(s: Seq<char>, i: int)
    requires
        0 <= i <= s.len(),
    ensures
        spec_rule(s, i) matches Ok((_, end)) ==> i < end <= s.len(),
{
    lemma_selectors_end(s, i, Seq::empty());
    match spec_selectors(s, i) {
        Err(e) => {},
        Ok((selectors, at)) => {
            lemma_declarations_end(s, at + 1, Seq::empty());
        },
    }
}

/// The rules from `i` on, added to `found`: at the end of the text there
/// are no more; else a rule and the whitespace behind it.
pub open spec fn spec_stylesheet_from(s: Seq<char>, i: int, found: Seq<RuleView>) -> Result<
    Seq<RuleView>,
    ParseError,
>
    decreases s.len() - i,
{
    if !(0 <= i < s.len()) {
        Ok(found)
    } else {
        match spec_rule(s, i) {
            Err(e) => Err(e),
            Ok((rule, end)) => {
                proof {
                    lemma_rule_advances(s, i);
                    lemma_whitespace_end(s, end);
                }
                spec_stylesheet_from(s, whitespace_end(s, end), found.push(rule))
            },
        }
    }
}

/// The rules of a whole text.
pub open spec fn spec_stylesheet(s: Seq<char>) -> Result<Seq<RuleView>, ParseError> {
    spec_stylesheet_from(s, 0, Seq::empty())
}

/// What a method that reads a value returned, as the grammar states it: the
/// value's view with the index behind it, or the failure.
pub open spec fn value_outcome(r: Result<Value, ParseError>, end: int) -> Result<
    (ValueView, int),
    ParseError,
> {
    match r {
        Ok(value) => Ok((value@, end)),
        Err(e) => Err(e),
    }
}

/// Tells whether `a` is a higher specificity than `b`.
fn outranks_exec(a: (usize, usize, usize), b: (usize, usize, usize)) -> (r: bool)
    ensures
        r == outranks((a.0 as nat, a.1 as nat, a.2 as nat), (b.0 as nat, b.1 as nat, b.2 as nat)),
{
    a.0 > b.0 || (a.0 == b.0 && (a.1 > b.1 || (a.1 == b.1 && a.2 > b.2)))
}

/// Orders selectors by falling specificity, and keeps the order of those
/// that have the same.
fn sort_by_specificity(selectors: Vec<Selector>) -> (sorted: Vec<Selector>)
    ensures
        selectors_view(sorted@) == ranked(selectors_view(selectors@)),
{
    let ghost list = selectors_view(selectors@);
    let mut rest = selectors;
    let mut sorted: Vec<Selector> = Vec::new();
    assert(list.skip(list.len() as int) =~= Seq::<SelectorView>::empty());
    assert(selectors_view(sorted@) =~= Seq::<SelectorView>::empty());
    loop
        invariant
            list.len() >= rest@.len(),
            selectors_view(rest@) == list.take(rest@.len() as int),
            selectors_view(sorted@) == ranked(list.skip(rest@.len() as int)),
        ensures
            selectors_view(sorted@) == ranked(list),
        decreases rest@.len(),
    {
        let ghost before = rest@;
        let ghost done = selectors_view(sorted@);
        match rest.pop() {
            None => {
                assert(list.skip(0) =~= list);
                break ;
            },
            Some(selector) => {
                let ghost n = rest@.len() as int;
                assert(selectors_view(before)[n] == selector@);
                assert(list[n] == selector@);
                assert(list.skip(n).drop_first() =~= list.skip(n + 1));
                assert(selectors_view(rest@) =~= list.take(n));
                let key = selector.specificity();
                let mut place: usize = 0;
                while place < sorted.len() && outranks_exec(sorted[place].specificity(), key)
                    invariant
                        place <= sorted@.len(),
                        done == selectors_view(sorted@),
                        (key.0 as nat, key.1 as nat, key.2 as nat) == selector@.specificity(),
                        rank_place(done, selector@, 0) == rank_place(done, selector@, place as int),
                    decreases sorted@.len() - place,
                {
                    place += 1;
                }
                sorted.insert(place, selector);
                assert(selectors_view(sorted@) =~= done.insert(place as int, selector@));
            },
        }
    }
    sorted
}

/// Tells whether `numeral`, made of digits and points, is a decimal numeral.
fn is_decimal_text(numeral: &str) -> (r: bool)
    ensures
        r == is_decimal(numeral@),
{
    let chars = chars_of(numeral);
    let mut has_digit = false;
    let mut points: usize = 0;
    let ghost mut digit_at: int = 0;
    let ghost mut point_at: int = 0;
    let ghost mut second_at: int = 0;
    let mut i: usize = 0;
    while i < chars.len()
        invariant
            i <= chars@.len(),
            chars@ == numeral@,
            points <= 2,
            has_digit ==> 0 <= digit_at < i && chars@[digit_at] != '.',
            !has_digit ==> forall|k: int| 0 <= k < i ==> chars@[k] == '.',
            points == 0 ==> forall|k: int| 0 <= k < i ==> chars@[k] != '.',
            points >= 1 ==> 0 <= point_at < i && chars@[point_at] == '.',
            points == 1 ==> forall|k: int| 0 <= k < i && chars@[k] == '.' ==> k == point_at,
            points == 2 ==> 0 <= second_at < i && chars@[second_at] == '.' && second_at
                != point_at,
        decreases chars@.len() - i,
    {
        if chars[i] == '.' {
            if points == 0 {
                proof {
                    point_at = i as int;
                }
                points = 1;
            } else if points == 1 {
                proof {
                    second_at = i as int;
                }
                points = 2;
            }
        } else {
            proof {
                digit_at = i as int;
            }
            has_digit = true;
        }
        i += 1;
    }
    has_digit && points <= 1
}

/// The unit that `name` names, if it names one.
fn unit_of(name: &str) -> (r: Option<Unit>)
    ensures
        r == spec_unit(name@),
{
    if same_text(name, "%") {
        Some(Unit::Percent)
    } else if same_text(name, "pt") {
        Some(Unit::Pt)
    } else if same_text(name, "px") {
        Some(Unit::Px)
    } else if same_text(name, "wh") {
        Some(Unit::Wh)
    } else if same_text(name, "vh") {
        Some(Unit::Vh)
    } else if same_text(name, "em") {
        Some(Unit::Em)
    } else if same_text(name, "rem") {
        Some(Unit::Rem)
    } else {
        None
    }
}

/// `digits[k]` is the value of the hexadecimal digit that stands at `i + k`.
spec fn hex_digit_read(s: Seq<char>, i: int, digits: Seq<u8>, k: int) -> bool {
    is_hex_digit(s[i + k]) && digits[k] == hex_value(s[i + k])
}

/// `digits` holds the values of the hexadecimal digits that stand at `i`.
spec fn hex_digits_read(s: Seq<char>, i: int, digits: Seq<u8>) -> bool {
    forall|k: int| 0 <= k < digits.len() ==> #[trigger] hex_digit_read(s, i, digits, k)
}

/// The number that `c` stands for as a hexadecimal digit, if it is one.
fn hex_digit(c: char) -> (r: Option<u8>)
    ensures
        match r {
            Some(v) => is_hex_digit(c) && v == hex_value(c) && v < 16,
            None => !is_hex_digit(c),
        },
{
    if c >= '0' && c <= '9' {
        Some((c as u32 - '0' as u32) as u8)
    } else if c >= 'a' && c <= 'f' {
        Some((c as u32 - 'a' as u32 + 10) as u8)
    } else if c >= 'A' && c <= 'F' {
        Some((c as u32 - 'A' as u32 + 10) as u8)
    } else {
        None
    }
}

/// The style parser: a cursor over the style sheet.
pub struct Parser {
    pub parser: parser::Parser,
}

impl Parser {
    /// Parses `source` into a style sheet. An empty text gives an empty
    /// style sheet.
    pub fn parse(source: String) -> (r: Result<Stylesheet, ParseError>)
        ensures
            match r {
                Ok(sheet) => spec_stylesheet(source@) == Ok::<Seq<RuleView>, ParseError>(sheet@),
                Err(e) => spec_stylesheet(source@) == Err::<Seq<RuleView>, ParseError>(e),
            },
    {
        let mut parser = Parser { parser: parser::Parser::new(source) };
        parser.parse_stylesheet()
    }

    /// Reads rules, and the whitespace behind each, up to the end of the
    /// text.
    pub fn parse_stylesheet(&mut self) -> (r: Result<Stylesheet, ParseError>)
        requires
            old(self).parser.wf(),
        ensures
            final(self).parser.wf(),
            final(self).parser.input == old(self).parser.input,
            old(self).parser.pos <= final(self).parser.pos,
            match r {
                Ok(sheet) => {
                    &&& spec_stylesheet_from(
                        old(self).parser.input@,
                        old(self).parser.index(),
                        Seq::empty(),
                    ) == Ok::<Seq<RuleView>, ParseError>(sheet@)
                    &&& final(self).parser.index() == old(self).parser.input@.len()
                },
                Err(e) => spec_stylesheet_from(
                    old(self).parser.input@,
                    old(self).parser.index(),
                    Seq::empty(),
                ) == Err::<Seq<RuleView>, ParseError>(e),
            },
    {
        let ghost text = self.parser.input@;
        let ghost start = self.parser.index();
        let mut rules = Vec::<Rule>::new();
        proof {
            self.parser.lemma_index_in_text();
            assert(rules_view(rules@) =~= Seq::<RuleView>::empty());
        }
        while !self.parser.eof()
            invariant
                self.parser.wf(),
                self.parser.input == old(self).parser.input,
                old(self).parser.pos <= self.parser.pos,
                text == self.parser.input@,
                start == old(self).parser.index(),
                0 <= start <= self.parser.index() <= text.len(),
                spec_stylesheet_from(text, start, Seq::empty()) == spec_stylesheet_from(
                    text,
                    self.parser.index(),
                    rules_view(rules@),
                ),
            decreases text.len() - self.parser.index(),
        {
            let ghost found = rules_view(rules@);
            let rule = match self.parse_rule() {
                Ok(rule) => rule,
                Err(e) => {
                    return Err(e);
                },
            };
            rules.push(rule);
            assert(rules_view(rules@) =~= found.push(rule@));
            self.parser.consume_whitespace();
        }
        Ok(Stylesheet { rules: rules })
    }

    /// Reads a rule: selectors and a declaration block.
    pub fn parse_rule(&mut self) -> (r: Result<Rule, ParseError>)
        requires
            old(self).parser.wf(),
        ensures
            final(self).parser.wf(),
            final(self).parser.input == old(self).parser.input,
            old(self).parser.pos <= final(self).parser.pos,
            match r {
                Ok(rule) => {
                    &&& spec_rule(old(self).parser.input@, old(self).parser.index()) == Ok::<
                        (RuleView, int),
                        ParseError,
                    >((rule@, final(self).parser.index()))
                    &&& old(self).parser.index() < final(self).parser.index()
                        <= old(self).parser.input@.len()
                },
                Err(e) => spec_rule(old(self).parser.input@, old(self).parser.index()) == Err::<
                    (RuleView, int),
                    ParseError,
                >(e),
            },
    {
        let selectors = match self.parse_selectors() {
            Ok(selectors) => selectors,
            Err(e) => {
                return Err(e);
            },
        };
        let declarations = match self.parse_declarations() {
            Ok(declarations) => declarations,
            Err(e) => {
                return Err(e);
            },
        };
        Ok(Rule { selectors: selectors, declarations: declarations })
    }

    /// Reads an identifier: letters, digits, `-` and `_`, as many as there
    /// are, which may be none.
    pub fn parse_identifier(&mut self) -> (name: String)
        requires
            old(self).parser.wf(),
        ensures
            final(self).parser.wf(),
            final(self).parser.input == old(self).parser.input,
            old(self).parser.pos <= final(self).parser.pos,
            final(self).parser.index() == identifier_end(
                old(self).parser.input@,
                old(self).parser.index(),
            ),
            old(self).parser.index() <= final(self).parser.index() <= old(self).parser.input@.len(),
            name@ == old(self).parser.input@.subrange(
                old(self).parser.index(),
                final(self).parser.index(),
            ),
    {
        let ghost text = self.parser.input@;
        let ghost start = self.parser.index();
        let test = |c: char| -> (b: bool)
            ensures
                b == is_identifier_char(c),
            {
                match c {
                    'a'..='z' | '-' | '_' | 'A'..='Z' | '0'..='9' => true,
                    _ => false,
                }
            };
        let name = self.parser.consume_while(test);
        proof {
            lemma_run_end_unique(text, start, self.parser.index(), |c: char| is_identifier_char(c));
        }
        name
    }

    /// Tells whether a tag name may start with `ch` in a selector.
    pub fn is_valid_identifier_char(&self, ch: char) -> (r: bool)
        ensures
            r == is_identifier_start(ch),
    {
        match ch {
            'a'..='z' | '-' | '_' | 'A'..='Z' => true,
            _ => false,
        }
    }

    /// Reads the selectors of a rule, up to the `{` behind them, and orders
    /// them: the most specific first, and those of the same specificity in
    /// the order in which they were written.
    pub fn parse_selectors(&mut self) -> (r: Result<Vec<Selector>, ParseError>)
        requires
            old(self).parser.wf(),
        ensures
            final(self).parser.wf(),
            final(self).parser.input == old(self).parser.input,
            old(self).parser.pos <= final(self).parser.pos,
            match r {
                Ok(selectors) => {
                    &&& spec_selectors(old(self).parser.input@, old(self).parser.index()) == Ok::<
                        (Seq<SelectorView>, int),
                        ParseError,
                    >((selectors_view(selectors@), final(self).parser.index()))
                    &&& old(self).parser.index() <= final(self).parser.index()
                        < old(self).parser.input@.len()
                },
                Err(e) => spec_selectors(old(self).parser.input@, old(self).parser.index())
                    == Err::<(Seq<SelectorView>, int), ParseError>(e),
            },
    {
        let ghost text = self.parser.input@;
        let ghost start = self.parser.index();
        let mut selectors: Vec<Selector> = Vec::new();
        proof {
            self.parser.lemma_index_in_text();
            assert(selectors_view(selectors@) =~= Seq::<SelectorView>::empty());
        }
        loop
            invariant_except_break
                spec_selectors_from(text, start, Seq::empty()) == spec_selectors_from(
                    text,
                    self.parser.index(),
                    selectors_view(selectors@),
                ),
            invariant
                self.parser.wf(),
                self.parser.input == old(self).parser.input,
                old(self).parser.pos <= self.parser.pos,
                text == self.parser.input@,
                start == old(self).parser.index(),
                0 <= start <= self.parser.index() <= text.len(),
            ensures
                self.parser.wf(),
                self.parser.input == old(self).parser.input,
                old(self).parser.pos <= self.parser.pos,
                start <= self.parser.index() < text.len(),
                spec_selectors_from(text, start, Seq::empty()) == Ok::<
                    (Seq<SelectorView>, int),
                    ParseError,
                >((selectors_view(selectors@), self.parser.index())),
            decreases text.len() - self.parser.index(),
        {
            let ghost found = selectors_view(selectors@);
            self.parser.consume_whitespace();
            let selector = self.parse_selector();
            selectors.push(selector);
            assert(selectors_view(selectors@) =~= found.push(selector@));
            self.parser.consume_whitespace();
            match self.parser.next_char() {
                Err(e) => {
                    return Err(e);
                },
                Ok(c) => {
                    if c == ',' {
                        let ghost comma = self.parser.index();
                        let _ = self.parser.consume_char();
                        self.parser.consume_whitespace();
                        proof {
                            lemma_whitespace_end(text, comma + 1);
                            lemma_selectors_step(text, comma + 1, selectors_view(selectors@));
                        }
                    } else if c == '{' {
                        break ;
                    } else {
                        return Err(ParseError::UnexpectedToken);
                    }
                },
            }
        }
        Ok(sort_by_specificity(selectors))
    }

    /// Reads one selector. It ends before the first character that can
    /// stand in none, and may be empty.
    pub fn parse_selector(&mut self) -> (selector: Selector)
        requires
            old(self).parser.wf(),
        ensures
            final(self).parser.wf(),
            final(self).parser.input == old(self).parser.input,
            old(self).parser.pos <= final(self).parser.pos,
            spec_selector(old(self).parser.input@, old(self).parser.index()) == (
                selector@,
                final(self).parser.index(),
            ),
            old(self).parser.index() <= final(self).parser.index() <= old(self).parser.input@.len(),
    {
        let ghost text = self.parser.input@;
        let ghost start = self.parser.index();
        let mut selector = Selector { tag_name: None, id: None, class: Vec::new() };
        proof {
            self.parser.lemma_index_in_text();
            assert(selector@.class =~= Seq::<Seq<char>>::empty());
        }
        loop
            invariant
                self.parser.wf(),
                self.parser.input == old(self).parser.input,
                old(self).parser.pos <= self.parser.pos,
                text == self.parser.input@,
                start == old(self).parser.index(),
                0 <= start <= self.parser.index() <= text.len(),
                spec_selector(text, start) == spec_selector_from(
                    text,
                    self.parser.index(),
                    selector@,
                ),
            ensures
                self.parser.wf(),
                self.parser.input == old(self).parser.input,
                old(self).parser.pos <= self.parser.pos,
                start <= self.parser.index() <= text.len(),
                spec_selector(text, start) == (selector@, self.parser.index()),
            decreases text.len() - self.parser.index(),
        {
            let ghost at = self.parser.index();
            let ghost found = selector@;
            let c = match self.parser.next_char() {
                Ok(c) => c,
                Err(_) => {
                    break ;
                },
            };
            if c == '#' {
                let _ = self.parser.consume_char();
                selector.id = Some(self.parse_identifier());
            } else if c == '.' {
                let _ = self.parser.consume_char();
                let name = self.parse_identifier();
                selector.class.push(name);
                assert(selector@.class =~= found.class.push(name@));
            } else if c == '*' {
                let _ = self.parser.consume_char();
            } else if self.is_valid_identifier_char(c) {
                proof {
                    lemma_run_end(text, at + 1, |c: char| is_identifier_char(c));
                }
                selector.tag_name = Some(self.parse_identifier());
            } else {
                break ;
            }
        }
        selector
    }

    /// Reads a length: a decimal numeral and a unit.
    pub fn parse_length(&mut self) -> (r: Result<Value, ParseError>)
        requires
            old(self).parser.wf(),
        ensures
            final(self).parser.wf(),
            final(self).parser.input == old(self).parser.input,
            old(self).parser.pos <= final(self).parser.pos,
            spec_length(old(self).parser.input@, old(self).parser.index()) == value_outcome(
                r,
                final(self).parser.index(),
            ),
            old(self).parser.index() <= final(self).parser.index() <= old(self).parser.input@.len(),
    {
        let ghost text = self.parser.input@;
        let ghost start = self.parser.index();
        let numeric = |c: char| -> (b: bool)
            ensures
                b == is_numeric(c),
            {
                match c {
                    '0'..='9' | '.' => true,
                    _ => false,
                }
            };
        let amount = self.parser.consume_while(numeric);
        let ghost number_end = self.parser.index();
        proof {
            lemma_run_end_unique(text, start, number_end, |c: char| is_numeric(c));
        }
        let letters = |c: char| -> (b: bool)
            ensures
                b == is_unit_char(c),
            {
                match c {
                    'a'..='z' | '%' => true,
                    _ => false,
                }
            };
        if !is_decimal_text(amount.as_str()) {
            return Err(ParseError::MalformedValue);
        }
        let unit = self.parser.consume_while(letters);
        proof {
            lemma_run_end_unique(text, number_end, self.parser.index(), |c: char| is_unit_char(c));
        }
        match unit_of(unit.as_str()) {
            Some(unit) => Ok(Value::Length(amount, unit)),
            None => Err(ParseError::MalformedValue),
        }
    }

    /// Reads a colour: one character, the `#`, and six hexadecimal digits.
    pub fn parse_color(&mut self) -> (r: Result<Value, ParseError>)
        requires
            old(self).parser.wf(),
        ensures
            final(self).parser.wf(),
            final(self).parser.input == old(self).parser.input,
            old(self).parser.pos <= final(self).parser.pos,
            spec_color(old(self).parser.input@, old(self).parser.index()) == value_outcome(
                r,
                final(self).parser.index(),
            ),
            old(self).parser.index() <= final(self).parser.index() <= old(self).parser.input@.len(),
    {
        let ghost text = self.parser.input@;
        let ghost start = self.parser.index();
        match self.parser.consume_char() {
            Err(e) => {
                return Err(e);
            },
            Ok(_) => {},
        }
        let mut digits: Vec<u8> = Vec::new();
        while digits.len() < 6
            invariant
                self.parser.wf(),
                self.parser.input == old(self).parser.input,
                old(self).parser.pos <= self.parser.pos,
                text == self.parser.input@,
                start == old(self).parser.index(),
                0 <= start < text.len(),
                digits@.len() <= 6,
                self.parser.index() == start + 1 + digits@.len(),
                self.parser.index() <= text.len(),
                hex_digits_read(text, start + 1, digits@),
            decreases 6 - digits@.len(),
        {
            let ghost n = digits@.len() as int;
            let c = match self.parser.next_char() {
                Ok(c) => c,
                Err(_) => {
                    assert(!has_hex_digits(text, start + 1, 6));
                    return Err(ParseError::MalformedValue);
                },
            };
            match hex_digit(c) {
                None => {
                    assert(!is_hex_digit(text[start + 1 + n]));
                    assert(!has_hex_digits(text, start + 1, 6));
                    return Err(ParseError::MalformedValue);
                },
                Some(v) => {
                    let ghost before = digits@;
                    digits.push(v);
                    let _ = self.parser.consume_char();
                    assert(hex_digits_read(text, start + 1, digits@)) by {
                        assert forall|k: int| 0 <= k < digits@.len() implies #[trigger] hex_digit_read(
                            text,
                            start + 1,
                            digits@,
                            k,
                        ) by {
                            if k < n {
                                assert(hex_digit_read(text, start + 1, before, k));
                            }
                        }
                    }
                },
            }
        }
        assert(has_hex_digits(text, start + 1, 6)) by {
            assert forall|j: int| start + 1 <= j < start + 1 + 6 implies is_hex_digit(
                #[trigger] text[j],
            ) by {
                assert(hex_digit_read(text, start + 1, digits@, j - (start + 1)));
            }
        }
        assert(hex_digit_read(text, start + 1, digits@, 0));
        assert(hex_digit_read(text, start + 1, digits@, 1));
        assert(hex_digit_read(text, start + 1, digits@, 2));
        assert(hex_digit_read(text, start + 1, digits@, 3));
        assert(hex_digit_read(text, start + 1, digits@, 4));
        assert(hex_digit_read(text, start + 1, digits@, 5));
        let r: u8 = digits[0] * 16 + digits[1];
        let g: u8 = digits[2] * 16 + digits[3];
        let b: u8 = digits[4] * 16 + digits[5];
        Ok(Value::Color(Color { r: r, g: g, b: b, a: 255 }))
    }

    /// Reads a keyword: lower-case letters, as many as there are.
    pub fn parse_keyword(&mut self) -> (value: Value)
        requires
            old(self).parser.wf(),
        ensures
            final(self).parser.wf(),
            final(self).parser.input == old(self).parser.input,
            old(self).parser.pos <= final(self).parser.pos,
            spec_keyword(old(self).parser.input@, old(self).parser.index()) == (
                value@,
                final(self).parser.index(),
            ),
            old(self).parser.index() <= final(self).parser.index() <= old(self).parser.input@.len(),
    {
        let ghost text = self.parser.input@;
        let ghost start = self.parser.index();
        let lower = |c: char| -> (b: bool)
            ensures
                b == is_lower(c),
            {
                match c {
                    'a'..='z' => true,
                    _ => false,
                }
            };
        let keyword = self.parser.consume_while(lower);
        proof {
            lemma_run_end_unique(text, start, self.parser.index(), |c: char| is_lower(c));
        }
        Value::Keyword(keyword)
    }

    /// Reads a value. Its first character decides what it is: a lower-case
    /// letter a keyword, a digit a length, `#` a colour.
    pub fn parse_value(&mut self) -> (r: Result<Value, ParseError>)
        requires
            old(self).parser.wf(),
        ensures
            final(self).parser.wf(),
            final(self).parser.input == old(self).parser.input,
            old(self).parser.pos <= final(self).parser.pos,
            spec_value(old(self).parser.input@, old(self).parser.index()) == value_outcome(
                r,
                final(self).parser.index(),
            ),
            old(self).parser.index() <= final(self).parser.index() <= old(self).parser.input@.len(),
    {
        match self.parser.next_char() {
            Err(e) => Err(e),
            Ok(c) => {
                if c >= 'a' && c <= 'z' {
                    Ok(self.parse_keyword())
                } else if c >= '0' && c <= '9' {
                    self.parse_length()
                } else if c == '#' {
                    self.parse_color()
                } else {
                    Err(ParseError::UnexpectedToken)
                }
            },
        }
    }

    /// Reads a declaration: a property name, `:`, whitespace, a value and
    /// `;`.
    pub fn parse_declaration(&mut self) -> (r: Result<(String, Value), ParseError>)
        requires
            old(self).parser.wf(),
        ensures
            final(self).parser.wf(),
            final(self).parser.input == old(self).parser.input,
            old(self).parser.pos <= final(self).parser.pos,
            match r {
                Ok(pair) => {
                    &&& spec_declaration(old(self).parser.input@, old(self).parser.index()) == Ok::<
                        ((Seq<char>, ValueView), int),
                        ParseError,
                    >(((pair.0@, pair.1@), final(self).parser.index()))
                    &&& old(self).parser.index() < final(self).parser.index()
                        <= old(self).parser.input@.len()
                },
                Err(e) => spec_declaration(old(self).parser.input@, old(self).parser.index())
                    == Err::<((Seq<char>, ValueView), int), ParseError>(e),
            },
    {
        let ghost text = self.parser.input@;
        let ghost start = self.parser.index();
        let letters = |c: char| -> (b: bool)
            ensures
                b == is_property_char(c),
            {
                match c {
                    'a'..='z' | '-' => true,
                    _ => false,
                }
            };
        let property = self.parser.consume_while(letters);
        proof {
            lemma_run_end_unique(text, start, self.parser.index(), |c: char| is_property_char(c));
        }
        match self.parser.consume_char() {
            Err(e) => {
                return Err(e);
            },
            Ok(c) => {
                if c != ':' {
                    return Err(ParseError::UnexpectedToken);
                }
            },
        }
        self.parser.consume_whitespace();
        let value = match self.parse_value() {
            Ok(value) => value,
            Err(e) => {
                return Err(e);
            },
        };
        match self.parser.consume_char() {
            Err(e) => {
                return Err(e);
            },
            Ok(c) => {
                if c != ';' {
                    return Err(ParseError::UnexpectedToken);
                }
            },
        }
        Ok((property, value))
    }

    /// Reads a declaration block: `{`, declarations, and the `;` or `}`
    /// that ends it. A property that comes again keeps its last value.
    pub fn parse_declarations(&mut self) -> (r: Result<Declarations, ParseError>)
        requires
            old(self).parser.wf(),
        ensures
            final(self).parser.wf(),
            final(self).parser.input == old(self).parser.input,
            old(self).parser.pos <= final(self).parser.pos,
            match r {
                Ok(declarations) => {
                    &&& spec_declarations(old(self).parser.input@, old(self).parser.index())
                        == Ok::<(Seq<(Seq<char>, ValueView)>, int), ParseError>(
                        (entry_views(declarations@), final(self).parser.index()),
                    )
                    &&& old(self).parser.index() < final(self).parser.index()
                        <= old(self).parser.input@.len()
                },
                Err(e) => spec_declarations(old(self).parser.input@, old(self).parser.index())
                    == Err::<(Seq<(Seq<char>, ValueView)>, int), ParseError>(e),
            },
    {
        let ghost text = self.parser.input@;
        let ghost start = self.parser.index();
        let mut declarations = Declarations::new();
        match self.parser.consume_char() {
            Err(e) => {
                return Err(e);
            },
            Ok(c) => {
                if c != '{' {
                    return Err(ParseError::UnexpectedToken);
                }
            },
        }
        proof {
            assert(entry_views(declarations@) =~= Seq::<(Seq<char>, ValueView)>::empty());
        }
        loop
            invariant
                self.parser.wf(),
                self.parser.input == old(self).parser.input,
                old(self).parser.pos <= self.parser.pos,
                text == self.parser.input@,
                start == old(self).parser.index(),
                0 <= start < self.parser.index() <= text.len(),
                spec_declarations(text, start) == spec_declarations_from(
                    text,
                    self.parser.index(),
                    entry_views(declarations@),
                ),
            decreases text.len() - self.parser.index(),
        {
            self.parser.consume_whitespace();
            match self.parser.next_char() {
                Err(e) => {
                    return Err(e);
                },
                Ok(c) => {
                    if c == ';' || c == '}' {
                        let _ = self.parser.consume_char();
                        return Ok(declarations);
                    }
                },
            }
            let (property, value) = match self.parse_declaration() {
                Ok(pair) => pair,
                Err(e) => {
                    return Err(e);
                },
            };
            let ghost entries = declarations@;
            declarations.insert(property, value);
            proof {
                lemma_entry_views_insert(entries, property@, value);
            }
        }
    }
}

/// Whitespace before a list of selectors changes nothing.
pub proof fn lemma_selectors_step(s: Seq<char>, i: int, found: Seq<SelectorView>)
    requires
        0 <= i <= s.len(),
    ensures
        spec_selectors_from(s, whitespace_end(s, i), found) == spec_selectors_from(s, i, found),
{
    lemma_whitespace_end(s, i);
    lemma_selector_end(s, whitespace_end(s, i), no_selector());
    lemma_whitespace_end(s, spec_selector(s, whitespace_end(s, i)).1);
}

/// The selectors that have the specificity `key`.
pub open spec fn has_rank(key: (nat, nat, nat)) -> spec_fn(SelectorView) -> bool {
    |selector: SelectorView| selector.specificity() == key
}

/// The selectors of `list` that have the specificity `key`, in their order.
pub open spec fn of_rank(list: Seq<SelectorView>, key: (nat, nat, nat)) -> Seq<SelectorView> {
    list.filter(has_rank(key))
}

/// No selector of `list` is outranked by one that comes later.
pub open spec fn falling(list: Seq<SelectorView>) -> bool {
    forall|i: int, j: int|
        0 <= i < j < list.len() ==> !outranks(
            (#[trigger] list[j]).specificity(),
            (#[trigger] list[i]).specificity(),
        )
}

/// The place of a selector lies behind those that outrank it and before one
/// that does not.
pub proof fn lemma_rank_place(sorted: Seq<SelectorView>, selector: SelectorView, from: int)
    requires
        0 <= from <= sorted.len(),
    ensures
        from <= rank_place(sorted, selector, from) <= sorted.len(),
        forall|k: int|
            from <= k < rank_place(sorted, selector, from) ==> outranks(
                (#[trigger] sorted[k]).specificity(),
                selector.specificity(),
            ),
        rank_place(sorted, selector, from) < sorted.len() ==> !outranks(
            sorted[rank_place(sorted, selector, from)].specificity(),
            selector.specificity(),
        ),
    decreases sorted.len() - from,
{
    if from < sorted.len() && outranks(sorted[from].specificity(), selector.specificity()) {
        lemma_rank_place(sorted, selector, from + 1);
    }
}

/// Ordering by specificity keeps every selector, puts no selector before
/// one that outranks it, and leaves the selectors of each specificity in
/// the order in which they were written.
pub proof fn lemma_ranked(list: Seq<SelectorView>)
    ensures
        ranked(list).len() == list.len(),
        falling(ranked(list)),
        forall|key: (nat, nat, nat)| #[trigger] of_rank(ranked(list), key) == of_rank(list, key),
    decreases list.len(),
{
    if list.len() == 0 {
        assert(ranked(list) =~= list);
    } else {
        let first = list[0];
        let tail = list.drop_first();
        let rest = ranked(tail);
        lemma_ranked(tail);
        lemma_rank_place(rest, first, 0);
        let place = rank_place(rest, first, 0);
        let sorted = rest.insert(place, first);
        assert(ranked(list) == sorted);
        assert(falling(sorted)) by {
            assert forall|i: int, j: int| 0 <= i < j < sorted.len() implies !outranks(
                (#[trigger] sorted[j]).specificity(),
                (#[trigger] sorted[i]).specificity(),
            ) by {
                if j < place {
                    assert(sorted[i] == rest[i] && sorted[j] == rest[j]);
                } else if j == place {
                    assert(sorted[i] == rest[i]);
                } else if i < place {
                    assert(sorted[i] == rest[i] && sorted[j] == rest[j - 1]);
                } else if i == place {
                    assert(sorted[j] == rest[j - 1]);
                    if place < j - 1 {
                        assert(!outranks(rest[j - 1].specificity(), rest[place].specificity()));
                    }
                } else {
                    assert(sorted[i] == rest[i - 1] && sorted[j] == rest[j - 1]);
                }
            }
        }
        assert forall|key: (nat, nat, nat)| #[trigger] of_rank(sorted, key) == of_rank(
            list,
            key,
        ) by {
            let keep = has_rank(key);
            let before = rest.take(place);
            let behind = rest.skip(place);
            let one = seq![first];
            assert(one.drop_last() =~= Seq::<SelectorView>::empty());
            assert(one.filter(keep) =~= if keep(first) {
                one
            } else {
                Seq::<SelectorView>::empty()
            }) by {
                reveal_with_fuel(Seq::filter, 2);
            }
            assert(sorted =~= before + one + behind);
            assert(rest =~= before + behind);
            assert(list =~= one + tail);
            Seq::filter_distributes_over_add(before + one, behind, keep);
            Seq::filter_distributes_over_add(before, one, keep);
            Seq::filter_distributes_over_add(before, behind, keep);
            Seq::filter_distributes_over_add(one, tail, keep);
            assert(of_rank(rest, key) == of_rank(tail, key));
            if keep(first) {
                assert forall|k: int| 0 <= k < before.len() implies !keep(
                    #[trigger] before[k],
                ) by {
                    assert(before[k] == rest[k]);
                }
                before.lemma_all_neg_filter_empty(keep);
                assert(before.filter(keep) + one + behind.filter(keep) =~= one + (before.filter(
                    keep,
                ) + behind.filter(keep)));
            } else {
                assert(before.filter(keep) + one.filter(keep) + behind.filter(keep)
                    =~= one.filter(keep) + (before.filter(keep) + behind.filter(keep)));
            }
        }
    }
}

} // verus!
