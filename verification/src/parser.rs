//! The cursor that both parsers read their input through.

use crate::boundary::{
    chars_before, lemma_boundary_advance, lemma_boundary_between, lemma_boundary_in_prefix,
    lemma_boundary_split,
};
use vstd::prelude::*;
use vstd::utf8::*;

verus! {

/// Why a parse stopped. The first failure ends the whole parse.
#[derive(Debug, Clone, Copy, PartialEq, Eq, Structural)]
pub enum ParseError {
    /// A character was needed and the input had none left.
    EndOfInput,
    /// The next character fits nothing that may stand at its place.
    UnexpectedToken,
    /// A closing tag names another element than the one that is open.
    TagMismatch,
    /// A number with two decimal points, a colour of fewer than six hex
    /// digits, or a unit that is not known.
    MalformedValue,
}

/// A text and a byte offset into it.
///
/// The model is the text as a sequence of characters, `input@`, and the
/// number of characters before the offset, `index()`. The offset only grows.
pub struct Parser {
    pub pos: usize,
    pub input: String,
}

/// The end of the longest run of characters that satisfy `p` and start at `i`:
/// the first index from `i` on whose character fails `p`, or the length of
/// `s` if there is none.
pub open spec fn run_end(s: Seq<char>, i: int, p: spec_fn(char) -> bool) -> int
    decreases s.len() - i,
{
    if 0 <= i < s.len() && p(s[i]) {
        run_end(s, i + 1, p)
    } else {
        i
    }
}

/// `run_end` bounds a run: every character in it satisfies `p`, and the run
/// stops at the end of the text or before a character that fails `p`.
pub proof fn lemma_run_end(s: Seq<char>, i: int, p: spec_fn(char) -> bool)
    requires
        0 <= i <= s.len(),
    ensures
        i <= run_end(s, i, p) <= s.len(),
        forall|k: int| i <= k < run_end(s, i, p) ==> p(#[trigger] s[k]),
        run_end(s, i, p) < s.len() ==> !p(s[run_end(s, i, p)]),
    decreases s.len() - i,
{
    if i < s.len() && p(s[i]) {
        lemma_run_end(s, i + 1, p);
    }
}

/// A run is determined by what bounds it.
pub proof fn lemma_run_end_unique(s: Seq<char>, i: int, j: int, p: spec_fn(char) -> bool)
    requires
        0 <= i <= j <= s.len(),
        forall|k: int| i <= k < j ==> p(#[trigger] s[k]),
        j < s.len() ==> !p(s[j]),
    ensures
        run_end(s, i, p) == j,
    decreases j - i,
{
    if i < j {
        lemma_run_end_unique(s, i + 1, j, p);
    }
}

/// The two characters that the parsers skip between tokens.
pub open spec fn is_whitespace(c: char) -> bool {
    c == ' ' || c == '\n'
}

/// Where the whitespace that starts at `i` ends.
pub open spec fn whitespace_end(s: Seq<char>, i: int) -> int {
    run_end(s, i, |c: char| is_whitespace(c))
}

/// Whitespace ends in the text, and where it ends no more whitespace
/// starts.
pub proof fn lemma_whitespace_end(s: Seq<char>, i: int)
    requires
        0 <= i <= s.len(),
    ensures
        i <= whitespace_end(s, i) <= s.len(),
        whitespace_end(s, whitespace_end(s, i)) == whitespace_end(s, i),
        whitespace_end(s, i) < s.len() ==> !is_whitespace(s[whitespace_end(s, i)]),
{
    lemma_run_end(s, i, |c: char| is_whitespace(c));
    let end = whitespace_end(s, i);
    lemma_run_end_unique(s, end, end, |c: char| is_whitespace(c));
}

/// `lit` stands in `s` at index `i`.
pub open spec fn has_prefix_at(s: Seq<char>, i: int, lit: Seq<char>) -> bool {
    &&& 0 <= i
    &&& i + lit.len() <= s.len()
    &&& forall|k: int| 0 <= k < lit.len() ==> s[i + k] == #[trigger] lit[k]
}

/// What reading `lit` at index `i` gives: the index behind it where it
/// stands there, `EndOfInput` where the text ends inside it, and
/// `UnexpectedToken` where a character differs.
pub open spec fn spec_sequence(s: Seq<char>, i: int, lit: Seq<char>) -> Result<int, ParseError> {
    if has_prefix_at(s, i, lit) {
        Ok(i + lit.len())
    } else if has_prefix_at(lit, 0, s.skip(i)) {
        Err(ParseError::EndOfInput)
    } else {
        Err(ParseError::UnexpectedToken)
    }
}

/// The number of bytes that `c` takes in the text.
fn utf8_width(c: char) -> (w: usize)
    ensures
        w == encode_scalar(c as u32).len(),
        1 <= w <= 4,
{
    let v = c as u32;
    if v < 0x80 {
        1
    } else if v < 0x800 {
        2
    } else if v < 0x10000 {
        3
    } else {
        4
    }
}

/// The character that starts at byte `offset` of `s`, or `None` at its end.
fn char_at(s: &str, offset: usize) -> (r: Option<char>)
    requires
        is_char_boundary(encode_utf8(s@), offset as int),
    ensures
        0 <= chars_before(s@, offset as int) <= s@.len(),
        match r {
            Some(c) => chars_before(s@, offset as int) < s@.len() && c == s@[chars_before(
                s@,
                offset as int,
            )],
            None => chars_before(s@, offset as int) == s@.len(),
        },
{
    proof {
        lemma_boundary_split(s@, offset as int);
    }
    if offset >= s.as_bytes().len() {
        return None;
    }
    let (_, tail) = s.split_at(offset);
    proof {
        let k = chars_before(s@, offset as int);
        encode_utf8_decode_utf8(tail@);
        encode_utf8_decode_utf8(s@.skip(k));
        assert(tail@ == s@.skip(k));
    }
    Some(tail.get_char(0))
}

/// The offset behind the character `c` that starts at byte `offset` of `s`.
fn offset_behind(s: &str, offset: usize, c: char) -> (next: usize)
    requires
        is_char_boundary(encode_utf8(s@), offset as int),
        0 <= chars_before(s@, offset as int) < s@.len(),
        c == s@[chars_before(s@, offset as int)],
    ensures
        offset < next <= encode_utf8(s@).len(),
        is_char_boundary(encode_utf8(s@), next as int),
        chars_before(s@, next as int) == chars_before(s@, offset as int) + 1,
{
    proof {
        lemma_boundary_advance(s@, offset as int);
    }
    // The length of the text fits, and so does every offset into it.
    let limit = s.as_bytes().len();
    let width = utf8_width(c);
    assert(offset + width <= limit);
    offset + width
}

/// The text between two boundaries of `s`.
fn slice_between(s: &str, from: usize, to: usize) -> (r: String)
    requires
        is_char_boundary(encode_utf8(s@), from as int),
        is_char_boundary(encode_utf8(s@), to as int),
        chars_before(s@, from as int) <= chars_before(s@, to as int),
    ensures
        r@ == s@.subrange(chars_before(s@, from as int), chars_before(s@, to as int)),
{
    let ghost k1 = chars_before(s@, from as int);
    let ghost k2 = chars_before(s@, to as int);
    proof {
        lemma_boundary_split(s@, from as int);
        lemma_boundary_split(s@, to as int);
        lemma_boundary_in_prefix(s@, from as int, to as int);
    }
    let (head, _) = s.split_at(to);
    proof {
        encode_utf8_decode_utf8(head@);
        encode_utf8_decode_utf8(s@.take(k2));
        assert(head@ == s@.take(k2));
        lemma_boundary_split(head@, from as int);
    }
    let (_, mid) = head.split_at(from);
    proof {
        encode_utf8_decode_utf8(mid@);
        encode_utf8_decode_utf8(head@.skip(k1));
        assert(mid@ == head@.skip(k1));
        assert(head@.skip(k1) =~= s@.subrange(k1, k2));
    }
    mid.to_owned()
}

/// The characters of `s`, one by one.
pub(crate) fn chars_of(s: &str) -> (chars: Vec<char>)
    ensures
        chars@ == s@,
{
    let mut chars: Vec<char> = Vec::new();
    let mut at: usize = 0;
    proof {
        lemma_boundary_between(Seq::<char>::empty(), s@);
        assert(Seq::<char>::empty() + s@ =~= s@);
    }
    loop
        invariant
            is_char_boundary(encode_utf8(s@), at as int),
            chars@.len() == chars_before(s@, at as int),
            chars@.len() <= s@.len(),
            forall|k: int| 0 <= k < chars@.len() ==> chars@[k] == s@[k],
        ensures
            chars@ =~= s@,
        decreases s@.len() - chars@.len(),
    {
        match char_at(s, at) {
            None => {
                break ;
            },
            Some(c) => {
                at = offset_behind(s, at, c);
                chars.push(c);
            },
        }
    }
    chars
}

impl Parser {
    /// The offset lies on a character boundary of the text.
    pub open spec fn wf(&self) -> bool {
        is_char_boundary(encode_utf8(self.input@), self.pos as int)
    }

    /// The number of characters before the offset.
    pub open spec fn index(&self) -> int {
        chars_before(self.input@, self.pos as int)
    }

    /// A cursor at the start of `input`.
    pub fn new(input: String) -> (p: Parser)
        ensures
            p.wf(),
            p.pos == 0,
            p.index() == 0,
            p.input == input,
    {
        proof {
            lemma_boundary_between(Seq::<char>::empty(), input@);
            assert(Seq::<char>::empty() + input@ =~= input@);
        }
        Parser { pos: 0, input }
    }

    /// The offset and the index lie in the text or at its end, and reach
    /// the end together.
    pub proof fn lemma_index_in_text(&self)
        requires
            self.wf(),
        ensures
            0 <= self.index() <= self.input@.len(),
            self.pos <= encode_utf8(self.input@).len(),
            self.pos == encode_utf8(self.input@).len() <==> self.index() == self.input@.len(),
    {
        lemma_boundary_split(self.input@, self.pos as int);
    }

    /// Returns the next character and steps over it. At the end of the text
    /// nothing moves and the result is `EndOfInput`.
    pub fn consume_char(&mut self) -> (r: Result<char, ParseError>)
        requires
            old(self).wf(),
        ensures
            final(self).wf(),
            final(self).input == old(self).input,
            old(self).pos <= final(self).pos,
            0 <= old(self).index() <= old(self).input@.len(),
            match r {
                Ok(c) => {
                    &&& old(self).index() < old(self).input@.len()
                    &&& c == old(self).input@[old(self).index()]
                    &&& final(self).index() == old(self).index() + 1
                },
                Err(e) => {
                    &&& e == ParseError::EndOfInput
                    &&& old(self).index() == old(self).input@.len()
                    &&& final(self).pos == old(self).pos
                },
            },
    {
        match char_at(self.input.as_str(), self.pos) {
            None => Err(ParseError::EndOfInput),
            Some(c) => {
                self.pos = offset_behind(self.input.as_str(), self.pos, c);
                Ok(c)
            },
        }
    }

    /// Consumes characters for as long as `test` accepts them, and returns
    /// them. Stops at the end of the text or before the first character that
    /// `test` refuses.
    pub fn consume_while<F: Fn(char) -> bool>(&mut self, test: F) -> (result: String)
        requires
            old(self).wf(),
            forall|c: char| test.requires((c,)),
        ensures
            final(self).wf(),
            final(self).input == old(self).input,
            old(self).pos <= final(self).pos,
            0 <= old(self).index() <= final(self).index() <= old(self).input@.len(),
            result@ == old(self).input@.subrange(old(self).index(), final(self).index()),
            forall|k: int|
                old(self).index() <= k < final(self).index() ==> test.ensures(
                    (#[trigger] old(self).input@[k],),
                    true,
                ),
            final(self).index() < old(self).input@.len() ==> test.ensures(
                (old(self).input@[final(self).index()],),
                false,
            ),
    {
        let start = self.pos;
        let ghost text = self.input@;
        let ghost first = self.index();
        proof {
            self.lemma_index_in_text();
        }
        loop
            invariant
                self.wf(),
                self.input == old(self).input,
                old(self).pos <= self.pos,
                text == self.input@,
                first == old(self).index(),
                start == old(self).pos,
                old(self).wf(),
                0 <= first <= self.index() <= text.len(),
                forall|c: char| test.requires((c,)),
                forall|k: int| first <= k < self.index() ==> test.ensures((#[trigger] text[k],), true),
            ensures
                self.wf(),
                self.input == old(self).input,
                old(self).pos <= self.pos,
                0 <= first <= self.index() <= text.len(),
                forall|k: int| first <= k < self.index() ==> test.ensures((#[trigger] text[k],), true),
                self.index() < text.len() ==> test.ensures((text[self.index()],), false),
            decreases text.len() - self.index(),
        {
            match self.next_char() {
                Err(_) => {
                    break ;
                },
                Ok(c) => {
                    if !test(c) {
                        break ;
                    }
                    let _ = self.consume_char();
                },
            }
        }
        slice_between(self.input.as_str(), start, self.pos)
    }

    /// Skips spaces and newlines.
    pub fn consume_whitespace(&mut self)
        requires
            old(self).wf(),
        ensures
            final(self).wf(),
            final(self).input == old(self).input,
            old(self).pos <= final(self).pos,
            final(self).index() == whitespace_end(old(self).input@, old(self).index()),
            old(self).index() <= final(self).index() <= old(self).input@.len(),
    {
        let ghost text = self.input@;
        let ghost first = self.index();
        let skip = |c: char| -> (b: bool)
            ensures
                b == is_whitespace(c),
            {
                c == ' ' || c == '\n'
            };
        let _ = self.consume_while(skip);
        proof {
            lemma_run_end_unique(text, first, self.index(), |c: char| is_whitespace(c));
        }
    }

    /// Reads `seq` character by character. Stops behind `seq` where it stands
    /// at the cursor; else behind the first character that differs, with
    /// `UnexpectedToken`, or at the end of the text, with `EndOfInput`.
    pub fn consume_sequence(&mut self, seq: &str) -> (r: Result<(), ParseError>)
        requires
            old(self).wf(),
        ensures
            final(self).wf(),
            final(self).input == old(self).input,
            old(self).pos <= final(self).pos,
            old(self).index() <= final(self).index() <= old(self).input@.len(),
            match r {
                Ok(_) => spec_sequence(old(self).input@, old(self).index(), seq@) == Ok::<
                    int,
                    ParseError,
                >(final(self).index()),
                Err(e) => spec_sequence(old(self).input@, old(self).index(), seq@) == Err::<
                    int,
                    ParseError,
                >(e),
            },
            r == Err::<(), ParseError>(ParseError::EndOfInput) ==> final(self).index() == old(
                self,
            ).input@.len(),
            r == Err::<(), ParseError>(ParseError::UnexpectedToken) ==> {
                let m = final(self).index() - old(self).index();
                &&& 0 < m <= seq@.len()
                &&& has_prefix_at(old(self).input@, old(self).index(), seq@.take(m - 1))
                &&& old(self).input@[final(self).index() - 1] != seq@[m - 1]
            },
    {
        let ghost text = self.input@;
        let ghost first = self.index();
        let mut at: usize = 0;
        proof {
            self.lemma_index_in_text();
            lemma_boundary_between(Seq::<char>::empty(), seq@);
            assert(Seq::<char>::empty() + seq@ =~= seq@);
        }
        loop
            invariant
                self.wf(),
                self.input == old(self).input,
                old(self).pos <= self.pos,
                text == self.input@,
                first == old(self).index(),
                is_char_boundary(encode_utf8(seq@), at as int),
                0 <= chars_before(seq@, at as int) <= seq@.len(),
                self.index() == first + chars_before(seq@, at as int),
                0 <= first <= self.index() <= text.len(),
                forall|k: int|
                    0 <= k < chars_before(seq@, at as int) ==> text[first + k] == #[trigger] seq@[k],
            decreases seq@.len() - chars_before(seq@, at as int),
        {
            let ghost m = chars_before(seq@, at as int);
            match char_at(seq, at) {
                None => {
                    return Ok(());
                },
                Some(expected) => {
                    match self.consume_char() {
                        Err(e) => {
                            proof {
                                assert(!has_prefix_at(text, first, seq@));
                                assert(text.skip(first).len() == m);
                                assert forall|k: int| 0 <= k < text.skip(first).len() implies seq@[k]
                                    == #[trigger] text.skip(first)[k] by {
                                    assert(text[first + k] == seq@[k]);
                                }
                            }
                            return Err(e);
                        },
                        Ok(c) => {
                            if c != expected {
                                proof {
                                    assert(text[first + m] != seq@[m]);
                                    assert(!has_prefix_at(text, first, seq@));
                                    if has_prefix_at(seq@, 0, text.skip(first)) {
                                        assert(seq@[m] == text.skip(first)[m]);
                                    }
                                    assert(has_prefix_at(text, first, seq@.take(m)));
                                }
                                return Err(ParseError::UnexpectedToken);
                            }
                            at = offset_behind(seq, at, expected);
                        },
                    }
                },
            }
        }
    }

    /// Returns the next character without consuming it, or `EndOfInput` at
    /// the end of the text.
    pub fn next_char(&self) -> (r: Result<char, ParseError>)
        requires
            self.wf(),
        ensures
            0 <= self.index() <= self.input@.len(),
            match r {
                Ok(c) => self.index() < self.input@.len() && c == self.input@[self.index()],
                Err(e) => e == ParseError::EndOfInput && self.index() == self.input@.len(),
            },
    {
        match char_at(self.input.as_str(), self.pos) {
            Some(c) => Ok(c),
            None => Err(ParseError::EndOfInput),
        }
    }

    /// Tells whether `s` stands at the cursor. Consumes nothing.
    pub fn starts_with(&self, s: &str) -> (r: bool)
        requires
            self.wf(),
        ensures
            r == has_prefix_at(self.input@, self.index(), s@),
    {
        let ghost text = self.input@;
        let ghost first = self.index();
        let mut here: usize = self.pos;
        let mut at: usize = 0;
        proof {
            self.lemma_index_in_text();
            lemma_boundary_between(Seq::<char>::empty(), s@);
            assert(Seq::<char>::empty() + s@ =~= s@);
        }
        loop
            invariant
                text == self.input@,
                first == self.index(),
                is_char_boundary(encode_utf8(text), here as int),
                is_char_boundary(encode_utf8(s@), at as int),
                0 <= chars_before(s@, at as int) <= s@.len(),
                chars_before(text, here as int) == first + chars_before(s@, at as int),
                0 <= first <= chars_before(text, here as int) <= text.len(),
                forall|k: int|
                    0 <= k < chars_before(s@, at as int) ==> text[first + k] == #[trigger] s@[k],
            decreases s@.len() - chars_before(s@, at as int),
        {
            let ghost m = chars_before(s@, at as int);
            match char_at(s, at) {
                None => {
                    return true;
                },
                Some(expected) => {
                    match char_at(self.input.as_str(), here) {
                        None => {
                            return false;
                        },
                        Some(c) => {
                            if c != expected {
                                proof {
                                    assert(text[first + m] != s@[m]);
                                }
                                return false;
                            }
                            at = offset_behind(s, at, expected);
                            here = offset_behind(self.input.as_str(), here, c);
                        },
                    }
                },
            }
        }
    }

    /// Tells whether the whole text is consumed.
    pub fn eof(&self) -> (r: bool)
        ensures
            r == (self.pos >= encode_utf8(self.input@).len()),
            self.wf() ==> (r <==> self.index() == self.input@.len()),
    {
        proof {
            if self.wf() {
                lemma_boundary_split(self.input@, self.pos as int);
            }
        }
        self.pos >= self.input.as_str().as_bytes().len()
    }
}

} // verus!
