//! Cursor-based scanner: composable primitives over an immutable input string
//! and a mutable character-offset cursor. Every primitive either consumes
//! zero or more characters and succeeds, or fails without moving the cursor;
//! `find` is the one backtracking operation.

use vstd::prelude::*;

verus! {

/// The characters the scanner treats as whitespace.
pub open spec fn is_space_char(c: char) -> bool {
    c == ' ' || c == '\t' || c == '\n' || c == '\r' || c == '\u{b}' || c == '\u{c}'
}

/// The characters that end a line.
pub open spec fn is_line_break(c: char) -> bool {
    c == '\n' || c == '\r'
}

/// Decimal digits.
pub open spec fn is_digit_char(c: char) -> bool {
    '0' <= c && c <= '9'
}

/// Characters admitted into a signed-integer run: a sign or a digit.
pub open spec fn is_sign_or_digit(c: char) -> bool {
    c == '-' || is_digit_char(c)
}

/// End of the maximal run of characters satisfying `p`, starting at `i`.
pub open spec fn run_end(s: Seq<char>, i: int, p: spec_fn(char) -> bool) -> int
    decreases s.len() - i,
{
    if 0 <= i < s.len() && p(s[i]) {
        run_end(s, i + 1, p)
    } else {
        i
    }
}

/// End of the maximal digit run starting at `i`.
pub open spec fn digit_run_end(s: Seq<char>, i: int) -> int {
    run_end(s, i, |c: char| is_digit_char(c))
}

/// End of the maximal whitespace run starting at `i`.
pub open spec fn space_run_end(s: Seq<char>, i: int) -> int {
    run_end(s, i, |c: char| is_space_char(c))
}

/// End of the maximal non-whitespace run (a word) starting at `i`.
pub open spec fn word_run_end(s: Seq<char>, i: int) -> int {
    run_end(s, i, |c: char| !is_space_char(c))
}

/// End of the maximal sign-or-digit run starting at `i`.
pub open spec fn sign_run_end(s: Seq<char>, i: int) -> int {
    run_end(s, i, |c: char| is_sign_or_digit(c))
}

/// Position just past the current line: past the first line break at or after
/// `i` and past any directly following line-break characters, so blank lines
/// are absorbed. Identity at end of input.
pub open spec fn after_line(s: Seq<char>, i: int) -> int {
    let b = run_end(s, i, |c: char| !is_line_break(c));
    if b >= s.len() {
        b
    } else {
        run_end(s, b + 1, |c: char| is_line_break(c))
    }
}

/// Numeric value of a digit character.
pub open spec fn digit_val(c: char) -> int {
    c as int - '0' as int
}

/// Value of a string of decimal digits, most significant first.
pub open spec fn digits_val(s: Seq<char>) -> int
    decreases s.len(),
{
    if s.len() == 0 {
        0
    } else {
        10 * digits_val(s.drop_last()) + digit_val(s.last())
    }
}

/// All characters of `s` are decimal digits.
pub open spec fn all_digits(s: Seq<char>) -> bool {
    forall|i: int| 0 <= i < s.len() ==> is_digit_char(s[i])
}

/// A sign-or-digit run that denotes a valid `i64`: either all digits, or a
/// single leading '-' followed by at least one digit, the value within range.
pub open spec fn valid_i64_run(s: Seq<char>) -> bool {
    if s.len() == 0 {
        false
    } else if s[0] == '-' {
        s.len() > 1 && all_digits(s.skip(1)) && digits_val(s.skip(1)) <= 0x8000_0000_0000_0000
    } else {
        all_digits(s) && digits_val(s) <= i64::MAX
    }
}

/// The value a valid `i64` run denotes.
pub open spec fn i64_run_val(s: Seq<char>) -> int {
    if s.len() > 0 && s[0] == '-' {
        -digits_val(s.skip(1))
    } else {
        digits_val(s)
    }
}

pub proof fn lemma_run_end_bounds(s: Seq<char>, i: int, p: spec_fn(char) -> bool)
    requires
        0 <= i <= s.len(),
    ensures
        i <= run_end(s, i, p) <= s.len(),
        forall|j: int| i <= j < run_end(s, i, p) ==> p(s[j]),
        run_end(s, i, p) < s.len() ==> !p(s[run_end(s, i, p)]),
    decreases s.len() - i,
{
    if 0 <= i < s.len() && p(s[i]) {
        lemma_run_end_bounds(s, i + 1, p);
    }
}

/// A position whose prefix satisfies `p` and whose own character does not is
/// exactly the end of the maximal run.
pub proof fn lemma_run_end_is(s: Seq<char>, i: int, e: int, p: spec_fn(char) -> bool)
    requires
        0 <= i <= e <= s.len(),
        forall|j: int| i <= j < e ==> p(s[j]),
        e < s.len() ==> !p(s[e]),
    ensures
        run_end(s, i, p) == e,
    decreases e - i,
{
    if i < e {
        lemma_run_end_is(s, i + 1, e, p);
    }
}

pub proof fn lemma_digit_run(s: Seq<char>, i: int)
    requires
        0 <= i <= s.len(),
    ensures
        i <= digit_run_end(s, i) <= s.len(),
        forall|j: int| i <= j < digit_run_end(s, i) ==> is_digit_char(s[j]),
        digit_run_end(s, i) < s.len() ==> !is_digit_char(s[digit_run_end(s, i)]),
{
    lemma_run_end_bounds(s, i, |c: char| is_digit_char(c));
}

pub proof fn lemma_space_run(s: Seq<char>, i: int)
    requires
        0 <= i <= s.len(),
    ensures
        i <= space_run_end(s, i) <= s.len(),
        forall|j: int| i <= j < space_run_end(s, i) ==> is_space_char(s[j]),
        space_run_end(s, i) < s.len() ==> !is_space_char(s[space_run_end(s, i)]),
{
    lemma_run_end_bounds(s, i, |c: char| is_space_char(c));
}

pub proof fn lemma_word_run(s: Seq<char>, i: int)
    requires
        0 <= i <= s.len(),
    ensures
        i <= word_run_end(s, i) <= s.len(),
        forall|j: int| i <= j < word_run_end(s, i) ==> !is_space_char(s[j]),
        word_run_end(s, i) < s.len() ==> is_space_char(s[word_run_end(s, i)]),
{
    lemma_run_end_bounds(s, i, |c: char| !is_space_char(c));
}

pub proof fn lemma_after_line(s: Seq<char>, i: int)
    requires
        0 <= i <= s.len(),
    ensures
        i <= after_line(s, i) <= s.len(),
        i < s.len() ==> i < after_line(s, i),
{
    lemma_run_end_bounds(s, i, |c: char| !is_line_break(c));
    let b = run_end(s, i, |c: char| !is_line_break(c));
    if b < s.len() {
        lemma_run_end_bounds(s, b + 1, |c: char| is_line_break(c));
    }
}

/// Digit strings denote non-negative values.
pub proof fn lemma_digits_val_nonneg(s: Seq<char>)
    requires
        all_digits(s),
    ensures
        digits_val(s) >= 0,
    decreases s.len(),
{
    if s.len() > 0 {
        assert(all_digits(s.drop_last()));
        lemma_digits_val_nonneg(s.drop_last());
    }
}

/// Extending a digit string on the right never lowers its value.
pub proof fn lemma_digits_val_prefix(s: Seq<char>, k: int)
    requires
        all_digits(s),
        0 <= k <= s.len(),
    ensures
        digits_val(s.take(k)) <= digits_val(s),
    decreases s.len() - k,
{
    if k < s.len() {
        lemma_digits_val_prefix(s, k + 1);
        let t = s.take(k + 1);
        assert(t.drop_last() =~= s.take(k));
        assert(all_digits(s.take(k)));
        lemma_digits_val_nonneg(s.take(k));
        assert(digits_val(t) == 10 * digits_val(s.take(k)) + digit_val(t.last()));
        assert(is_digit_char(s[k]));
        assert(digit_val(t.last()) >= 0);
    } else {
        assert(s.take(k) =~= s);
    }
}

/// A call of the sub-parser `ff`, on a parser over `text` with its cursor at
/// `j`, may report failure.
pub open spec fn some_failure_at<T, F: Fn(&mut Parser) -> Option<T>>(
    ff: F,
    text: Seq<char>,
    j: int,
) -> bool {
    exists|m: &mut Parser, r: Option<T>|
        mut_ref_current(m).input@ == text && mut_ref_current(m).pos() == j && r is None
            && #[trigger] call_ensures(ff, (m,), r)
}

/// The scanner: an input string and a cursor, counted in characters.
pub struct Parser {
    pub input: String,
    pub current_ix: usize,
}

impl Parser {
    /// The whole input, as a sequence of characters.
    pub open spec fn text(&self) -> Seq<char> {
        self.input@
    }

    /// The cursor, as a mathematical position.
    pub open spec fn pos(&self) -> int {
        self.current_ix as int
    }

    /// The cursor never passes the end of the input.
    pub open spec fn wf(&self) -> bool {
        self.current_ix <= self.input@.len()
    }

    /// What is left of the input at the cursor.
    pub open spec fn remaining(&self) -> Seq<char> {
        self.input@.skip(self.current_ix as int)
    }

    pub fn new(input: String) -> (r: Parser)
        ensures
            r.text() == input@,
            r.pos() == 0,
            r.wf(),
    {
        Parser { input, current_ix: 0 }
    }

    pub fn eof(&self) -> (r: bool)
        ensures
            r == (self.pos() >= self.text().len()),
    {
        self.current_ix >= self.input.as_str().unicode_len()
    }

    pub fn current_text(&self) -> (r: &str)
        requires
            self.wf(),
        ensures
            r@ == self.remaining(),
    {
        let n = self.input.as_str().unicode_len();
        self.input.as_str().substring_char(self.current_ix, n)
    }

    /// Step one character forward; a no-op at end of input.
    pub fn skip_one(&mut self)
        requires
            old(self).wf(),
        ensures
            final(self).input@ == old(self).input@,
            final(self).wf(),
            final(self).pos() == if old(self).pos() < old(self).text().len() {
                old(self).pos() + 1
            } else {
                old(self).pos()
            },
    {
        if self.current_ix < self.input.as_str().unicode_len() {
            self.current_ix = self.current_ix + 1;
        }
    }

    /// Advance past the maximal run of characters accepted by `f`.
    pub fn skip<F: Fn(char) -> bool>(&mut self, f: F)
        requires
            old(self).wf(),
            forall|c: char| call_requires(f, (c,)),
        ensures
            final(self).input@ == old(self).input@,
            final(self).wf(),
            old(self).pos() <= final(self).pos() <= old(self).text().len(),
            forall|j: int|
                old(self).pos() <= j < final(self).pos() ==> call_ensures(
                    f,
                    (old(self).text()[j],),
                    true,
                ),
            final(self).pos() < old(self).text().len() ==> call_ensures(
                f,
                (old(self).text()[final(self).pos()],),
                false,
            ),
    {
        let ghost t = self.input@;
        let ghost start = self.current_ix as int;
        let n = self.input.as_str().unicode_len();
        loop
            invariant
                self.input@ == t,
                n == t.len(),
                start <= self.current_ix as int <= t.len(),
                forall|j: int|
                    start <= j < self.current_ix as int ==> call_ensures(f, (t[j],), true),
                forall|c: char| call_requires(f, (c,)),
            ensures
                self.input@ == t,
                start <= self.current_ix as int <= t.len(),
                forall|j: int|
                    start <= j < self.current_ix as int ==> call_ensures(f, (t[j],), true),
                (self.current_ix as int) < t.len() ==> call_ensures(
                    f,
                    (t[self.current_ix as int],),
                    false,
                ),
            decreases t.len() - self.current_ix as int,
        {
            if self.current_ix >= n {
                break ;
            }
            let c = self.input.as_str().get_char(self.current_ix);
            if !f(c) {
                break ;
            }
            self.current_ix = self.current_ix + 1;
        }
    }

    /// Advance past the maximal run of whitespace.
    pub fn skip_whitespace(&mut self)
        requires
            old(self).wf(),
        ensures
            final(self).input@ == old(self).input@,
            final(self).wf(),
            final(self).pos() == space_run_end(old(self).text(), old(self).pos()),
    {
        let ghost t = self.input@;
        let ghost start = self.current_ix as int;
        let space = |c: char| -> (r: bool)
            ensures
                r == is_space_char(c),
            {
                c == ' ' || c == '\t' || c == '\n' || c == '\r' || c == '\u{b}' || c == '\u{c}'
            };
        self.skip(space);
        proof {
            lemma_run_end_is(t, start, self.current_ix as int, |c: char| is_space_char(c));
        }
    }

    /// Advance past the maximal run of the one character `ch`.
    pub fn skip_char(&mut self, ch: char)
        requires
            old(self).wf(),
        ensures
            final(self).input@ == old(self).input@,
            final(self).wf(),
            final(self).pos() == run_end(
                old(self).text(),
                old(self).pos(),
                |c: char| c == ch,
            ),
    {
        let ghost t = self.input@;
        let ghost start = self.current_ix as int;
        let hit = |c: char| -> (r: bool)
            ensures
                r == (c == ch),
            {
                c == ch
            };
        self.skip(hit);
        proof {
            lemma_run_end_is(t, start, self.current_ix as int, |c: char| c == ch);
        }
    }

    /// Advance past the rest of the current line, its line break, and any
    /// directly following line breaks. A no-op at end of input.
    pub fn skip_eol(&mut self)
        requires
            old(self).wf(),
        ensures
            final(self).input@ == old(self).input@,
            final(self).wf(),
            final(self).pos() == after_line(old(self).text(), old(self).pos()),
    {
        let ghost t = self.input@;
        let ghost start = self.current_ix as int;
        let n = self.input.as_str().unicode_len();
        loop
            invariant
                self.input@ == t,
                n == t.len(),
                start <= self.current_ix as int <= t.len(),
                forall|j: int| start <= j < self.current_ix as int ==> !is_line_break(t[j]),
            ensures
                self.input@ == t,
                start <= self.current_ix as int <= t.len(),
                forall|j: int| start <= j < self.current_ix as int ==> !is_line_break(t[j]),
                (self.current_ix as int) < t.len() ==> is_line_break(t[self.current_ix as int]),
            decreases t.len() - self.current_ix as int,
        {
            if self.current_ix >= n {
                break ;
            }
            let c = self.input.as_str().get_char(self.current_ix);
            if c == '\n' || c == '\r' {
                break ;
            }
            self.current_ix = self.current_ix + 1;
        }
        proof {
            lemma_run_end_is(t, start, self.current_ix as int, |c: char| !is_line_break(c));
        }
        if self.current_ix < n {
            let ghost b = self.current_ix as int;
            self.current_ix = self.current_ix + 1;
            loop
                invariant
                    self.input@ == t,
                    n == t.len(),
                    b + 1 <= self.current_ix as int <= t.len(),
                    forall|j: int| b + 1 <= j < self.current_ix as int ==> is_line_break(t[j]),
                ensures
                    self.input@ == t,
                    b + 1 <= self.current_ix as int <= t.len(),
                    forall|j: int| b + 1 <= j < self.current_ix as int ==> is_line_break(t[j]),
                    (self.current_ix as int) < t.len() ==> !is_line_break(t[self.current_ix as int]),
                decreases t.len() - self.current_ix as int,
            {
                if self.current_ix >= n {
                    break ;
                }
                let c = self.input.as_str().get_char(self.current_ix);
                if !(c == '\n' || c == '\r') {
                    break ;
                }
                self.current_ix = self.current_ix + 1;
            }
            proof {
                lemma_run_end_is(t, b + 1, self.current_ix as int, |c: char| is_line_break(c));
            }
        }
    }

    /// The maximal prefix of the remaining input accepted by `f`, without
    /// moving the cursor; fails if that prefix is empty.
    fn inner_parse<F: Fn(char) -> bool>(&self, f: F) -> (r: Option<Vec<char>>)
        requires
            self.wf(),
            forall|c: char| call_requires(f, (c,)),
        ensures
            match r {
                None => self.pos() >= self.text().len() || call_ensures(
                    f,
                    (self.text()[self.pos()],),
                    false,
                ),
                Some(v) => {
                    &&& v@.len() > 0
                    &&& self.pos() + v@.len() <= self.text().len()
                    &&& v@ == self.text().subrange(self.pos(), self.pos() + v@.len())
                    &&& forall|j: int|
                        self.pos() <= j < self.pos() + v@.len() ==> call_ensures(
                            f,
                            (self.text()[j],),
                            true,
                        )
                    &&& self.pos() + v@.len() < self.text().len() ==> call_ensures(
                        f,
                        (self.text()[self.pos() + v@.len()],),
                        false,
                    )
                },
            },
    {
        let ghost t = self.input@;
        let ghost a = self.pos();
        let n = self.input.as_str().unicode_len();
        let mut out: Vec<char> = Vec::new();
        let mut ix = self.current_ix;
        loop
            invariant
                self.wf(),
                self.input@ == t,
                n == t.len(),
                a <= ix as int <= t.len(),
                out@.len() == ix as int - a,
                forall|j: int| a <= j < ix as int ==> out@[j - a] == t[j],
                forall|j: int| a <= j < ix as int ==> call_ensures(f, (t[j],), true),
                forall|c: char| call_requires(f, (c,)),
            ensures
                self.input@ == t,
                a <= ix as int <= t.len(),
                out@.len() == ix as int - a,
                forall|j: int| a <= j < ix as int ==> out@[j - a] == t[j],
                forall|j: int| a <= j < ix as int ==> call_ensures(f, (t[j],), true),
                (ix as int) < t.len() ==> call_ensures(f, (t[ix as int],), false),
            decreases t.len() - ix as int,
        {
            if ix >= n {
                break ;
            }
            let c = self.input.as_str().get_char(ix);
            if !f(c) {
                break ;
            }
            out.push(c);
            ix = ix + 1;
        }
        proof {
            assert(out@ =~= t.subrange(a, ix as int));
        }
        if out.len() == 0 {
            None
        } else {
            Some(out)
        }
    }

    /// Parse a maximal run of decimal digits as a `u64`; fails without moving
    /// the cursor when no digit is present or the run exceeds `u64::MAX`.
    pub fn parse_u64(&mut self) -> (r: Option<u64>)
        requires
            old(self).wf(),
        ensures
            final(self).input@ == old(self).input@,
            final(self).wf(),
            ({
                let t = old(self).text();
                let a = old(self).pos();
                let e = digit_run_end(t, a);
                let val = digits_val(t.subrange(a, e));
                if a < e && val <= u64::MAX {
                    r == Some(val as u64) && final(self).pos() == e
                } else {
                    r is None && final(self).pos() == a
                }
            }),
    {
        let ghost t = self.input@;
        let ghost a = self.pos();
        // the character count bounds the cursor arithmetic below in usize
        let _len = self.input.as_str().unicode_len();
        let digit = |c: char| -> (r: bool)
            ensures
                r == is_digit_char(c),
            {
                '0' <= c && c <= '9'
            };
        let chars = match self.inner_parse(digit) {
            None => {
                proof {
                    lemma_run_end_is(t, a, a, |c: char| is_digit_char(c));
                }
                return None;
            },
            Some(v) => v,
        };
        let ghost e = a + chars@.len();
        proof {
            lemma_run_end_is(t, a, e, |c: char| is_digit_char(c));
            assert(t.subrange(a, e) == chars@);
        }
        let mag = match Self::digits_to_u64(&chars, u64::MAX) {
            None => {
                return None;
            },
            Some(m) => m,
        };
        self.current_ix = self.current_ix + chars.len();
        Some(mag)
    }

    /// Parse a maximal run of '-' and digit characters as an `i64`; the run
    /// must denote a valid `i64` (at most one sign, leading), else the parse
    /// fails without moving the cursor.
    pub fn parse_i64(&mut self) -> (r: Option<i64>)
        requires
            old(self).wf(),
        ensures
            final(self).input@ == old(self).input@,
            final(self).wf(),
            ({
                let t = old(self).text();
                let a = old(self).pos();
                let e = sign_run_end(t, a);
                let run = t.subrange(a, e);
                if valid_i64_run(run) {
                    r == Some(i64_run_val(run) as i64) && final(self).pos() == e
                } else {
                    r is None && final(self).pos() == a
                }
            }),
    {
        let ghost t = self.input@;
        let ghost a = self.pos();
        // the character count bounds the cursor arithmetic below in usize
        let _len = self.input.as_str().unicode_len();
        let sign_or_digit = |c: char| -> (r: bool)
            ensures
                r == is_sign_or_digit(c),
            {
                c == '-' || ('0' <= c && c <= '9')
            };
        let chars = match self.inner_parse(sign_or_digit) {
            None => {
                proof {
                    lemma_run_end_is(t, a, a, |c: char| is_sign_or_digit(c));
                }
                return None;
            },
            Some(v) => v,
        };
        let ghost e = a + chars@.len();
        proof {
            lemma_run_end_is(t, a, e, |c: char| is_sign_or_digit(c));
            assert(t.subrange(a, e) == chars@);
        }
        let run = chars;
        let negative = run[0] == '-';
        // A '-' anywhere past the front makes the run malformed.
        let mut i: usize = 1;
        loop
            invariant
                1 <= i as int <= run@.len(),
                run@ == t.subrange(a, e),
                forall|j: int| 1 <= j < i as int ==> run@[j] != '-',
                forall|j: int| 0 <= j < run@.len() ==> is_sign_or_digit(run@[j]),
            ensures
                run@ == t.subrange(a, e),
                1 <= i as int <= run@.len(),
                i as int == run@.len() || run@[i as int] == '-',
                forall|j: int| 1 <= j < i as int ==> run@[j] != '-',
            decreases run@.len() - i as int,
        {
            if i >= run.len() {
                break ;
            }
            if run[i] == '-' {
                break ;
            }
            i = i + 1;
        }
        if i < run.len() {
            // a stray '-' inside the run
            proof {
                assert(!valid_i64_run(run@)) by {
                    if run@[0] == '-' {
                        assert(run@.skip(1)[i as int - 1] == run@[i as int]);
                        assert(!all_digits(run@.skip(1)));
                    } else {
                        assert(!is_digit_char(run@[i as int]));
                        assert(!all_digits(run@));
                    }
                }
            }
            return None;
        }
        assert(forall|j: int| 1 <= j < run@.len() ==> is_digit_char(run@[j]));
        if negative {
            if run.len() == 1 {
                // just "-"
                return None;
            }
            let mut digits: Vec<char> = Vec::new();
            let mut k: usize = 1;
            loop
                invariant
                    1 <= k as int <= run@.len(),
                    run@.len() >= 2,
                    digits@ == run@.subrange(1, k as int),
                    forall|j: int| 1 <= j < run@.len() ==> is_digit_char(run@[j]),
                    run@ == t.subrange(a, e),
                ensures
                    digits@ == run@.skip(1),
                    run@ == t.subrange(a, e),
                decreases run@.len() - k as int,
            {
                if k >= run.len() {
                    proof {
                        assert(digits@ =~= run@.skip(1));
                    }
                    break ;
                }
                digits.push(run[k]);
                k = k + 1;
                proof {
                    assert(digits@ =~= run@.subrange(1, k as int));
                }
            }
            assert(all_digits(run@.skip(1)));
            let mag = match Self::digits_to_u64(&digits, 0x8000_0000_0000_0000) {
                None => {
                    return None;
                },
                Some(m) => m,
            };
            self.current_ix = self.current_ix + run.len();
            if mag == 0x8000_0000_0000_0000 {
                Some(i64::MIN)
            } else {
                Some(-(mag as i64))
            }
        } else {
            assert(is_digit_char(run@[0]));
            assert(all_digits(run@));
            let mag = match Self::digits_to_u64(&run, i64::MAX as u64) {
                None => {
                    return None;
                },
                Some(m) => m,
            };
            self.current_ix = self.current_ix + run.len();
            Some(mag as i64)
        }
    }

    /// The value of a vector of digit characters, when it is at most `limit`.
    fn digits_to_u64(digits: &Vec<char>, limit: u64) -> (r: Option<u64>)
        requires
            all_digits(digits@),
            limit >= 9,
        ensures
            match r {
                Some(v) => v == digits_val(digits@) && v <= limit,
                None => digits_val(digits@) > limit,
            },
    {
        let mut acc: u64 = 0;
        let mut i: usize = 0;
        loop
            invariant
                0 <= i as int <= digits@.len(),
                all_digits(digits@),
                limit >= 9,
                acc == digits_val(digits@.take(i as int)),
                acc <= limit,
            ensures
                i as int == digits@.len(),
                acc == digits_val(digits@),
                acc <= limit,
            decreases digits@.len() - i as int,
        {
            if i >= digits.len() {
                proof {
                    assert(digits@.take(i as int) =~= digits@);
                }
                break ;
            }
            let c = digits[i];
            assert(is_digit_char(digits@[i as int]));
            assert('0' as u32 <= c as u32 <= '9' as u32);
            let d: u64 = ((c as u32) - ('0' as u32)) as u64;
            assert(d == digit_val(c));
            assert(d <= 9);
            proof {
                assert(digits@.take(i as int + 1).drop_last() =~= digits@.take(i as int));
                assert(digits_val(digits@.take(i as int + 1)) == 10 * acc + d);
            }
            if acc > (limit - d) / 10 {
                proof {
                    assert(10 * acc + d > limit);
                    lemma_digits_val_prefix(digits@, i as int + 1);
                }
                return None;
            }
            assert(10 * acc + d <= limit);
            acc = acc * 10 + d;
            i = i + 1;
        }
        Some(acc)
    }

    /// Advance past `token` when the remaining input starts with it verbatim;
    /// fails without moving the cursor otherwise.
    pub fn parse_token(&mut self, token: &str) -> (r: Option<String>)
        requires
            old(self).wf(),
        ensures
            final(self).input@ == old(self).input@,
            final(self).wf(),
            ({
                let t = old(self).text();
                let a = old(self).pos();
                let k = token@.len() as int;
                if a + k <= t.len() && t.subrange(a, a + k) == token@ {
                    (r matches Some(w) && w@ == token@) && final(self).pos() == a + k
                } else {
                    r is None && final(self).pos() == a
                }
            }),
    {
        let ghost t = self.input@;
        let ghost a = self.pos();
        let n = self.input.as_str().unicode_len();
        let k = token.unicode_len();
        if k > n - self.current_ix {
            return None;
        }
        let mut i: usize = 0;
        loop
            invariant
                self.wf(),
                self.input@ == t,
                self.current_ix as int == a,
                n == t.len(),
                k == token@.len(),
                a + k as int <= t.len(),
                0 <= i as int <= k as int,
                forall|j: int| 0 <= j < i as int ==> t[a + j] == token@[j],
            ensures
                self.input@ == t,
                self.current_ix as int == a,
                0 <= i as int <= k as int,
                forall|j: int| 0 <= j < i as int ==> t[a + j] == token@[j],
                i as int == k as int || t[a + i as int] != token@[i as int],
            decreases k as int - i as int,
        {
            if i >= k {
                break ;
            }
            let c_in = self.input.as_str().get_char(self.current_ix + i);
            let c_tok = token.get_char(i);
            if c_in != c_tok {
                break ;
            }
            i = i + 1;
        }
        if i < k {
            proof {
                assert(t.subrange(a, a + k as int)[i as int] == t[a + i as int]);
                assert(t.subrange(a, a + k as int) != token@);
            }
            return None;
        }
        proof {
            assert(t.subrange(a, a + k as int) =~= token@);
        }
        let w = token.to_owned();
        self.current_ix = self.current_ix + k;
        Some(w)
    }

    /// Consume a maximal non-empty run of non-whitespace characters as a word;
    /// fails without moving the cursor when none is available.
    pub fn parse_word1(&mut self) -> (r: Option<String>)
        requires
            old(self).wf(),
        ensures
            final(self).input@ == old(self).input@,
            final(self).wf(),
            ({
                let t = old(self).text();
                let a = old(self).pos();
                let e = word_run_end(t, a);
                if a < e {
                    (r matches Some(w) && w@ == t.subrange(a, e)) && final(self).pos() == e
                } else {
                    r is None && final(self).pos() == a
                }
            }),
    {
        let ghost t = self.input@;
        let ghost a = self.pos();
        let n = self.input.as_str().unicode_len();
        let mut end_ix = self.current_ix;
        loop
            invariant
                self.wf(),
                self.input@ == t,
                self.current_ix as int == a,
                n == t.len(),
                a <= end_ix as int <= t.len(),
                forall|j: int| a <= j < end_ix as int ==> !is_space_char(t[j]),
            ensures
                self.input@ == t,
                self.current_ix as int == a,
                a <= end_ix as int <= t.len(),
                forall|j: int| a <= j < end_ix as int ==> !is_space_char(t[j]),
                (end_ix as int) < t.len() ==> is_space_char(t[end_ix as int]),
            decreases t.len() - end_ix as int,
        {
            if end_ix >= n {
                break ;
            }
            let c = self.input.as_str().get_char(end_ix);
            if c == ' ' || c == '\t' || c == '\n' || c == '\r' || c == '\u{b}' || c == '\u{c}' {
                break ;
            }
            end_ix = end_ix + 1;
        }
        proof {
            lemma_run_end_is(t, a, end_ix as int, |c: char| !is_space_char(c));
        }
        if end_ix == self.current_ix {
            return None;
        }
        let w = self.input.as_str().substring_char(self.current_ix, end_ix).to_owned();
        self.current_ix = end_ix;
        Some(w)
    }

    /// The backtracking combinator: try the sub-parser at each position in
    /// turn, one character further each time; on success keep the sub-parser's
    /// state and result, on reaching the end of the input restore the starting
    /// cursor and fail.
    pub fn find<T, F: Fn(&mut Parser) -> Option<T>>(&mut self, ff: F) -> (r: Option<T>)
        requires
            old(self).wf(),
            forall|m: &mut Parser|
                (mut_ref_current(m).wf() && mut_ref_current(m).input@ == old(self).input@)
                    ==> call_requires(ff, (m,)),
            forall|m: &mut Parser, r0: Option<T>|
                call_ensures(ff, (m,), r0) ==> mut_ref_future(m).input@ == mut_ref_current(m).input@
                    && (mut_ref_current(m).wf() ==> mut_ref_future(m).wf()),
        ensures
            final(self).input@ == old(self).input@,
            final(self).wf(),
            match r {
                None => final(self).pos() == old(self).pos() && forall|j: int|
                    old(self).pos() <= j <= old(self).text().len() ==> some_failure_at(
                        ff,
                        old(self).text(),
                        j,
                    ),
                Some(out) => exists|m: &mut Parser|
                    {
                        &&& old(self).pos() <= mut_ref_current(m).pos() <= old(self).text().len()
                        &&& mut_ref_current(m).input@ == old(self).text()
                        &&& mut_ref_future(m) == *final(self)
                        &&& #[trigger] call_ensures(ff, (m,), Some(out))
                        &&& forall|j: int|
                            old(self).pos() <= j < mut_ref_current(m).pos() ==> some_failure_at(
                                ff,
                                old(self).text(),
                                j,
                            )
                    },
            },
    {
        let ghost t = self.input@;
        let ghost start = self.pos();
        let start_ix = self.current_ix;
        let n = self.input.as_str().unicode_len();
        loop
            invariant
                self.wf(),
                self.input@ == t,
                t == old(self).input@,
                start == old(self).pos(),
                n == t.len(),
                start == start_ix as int,
                start <= self.current_ix as int <= t.len(),
                forall|j: int| start <= j < self.current_ix as int ==> some_failure_at(ff, t, j),
                forall|m: &mut Parser|
                    (mut_ref_current(m).wf() && mut_ref_current(m).input@ == t) ==> call_requires(
                        ff,
                        (m,),
                    ),
                forall|m: &mut Parser, r0: Option<T>|
                    call_ensures(ff, (m,), r0) ==> mut_ref_future(m).input@ == mut_ref_current(
                        m,
                    ).input@ && (mut_ref_current(m).wf() ==> mut_ref_future(m).wf()),
            decreases t.len() + 1 - self.current_ix as int,
        {
            let here = self.current_ix;
            let r0 = ff(self);
            match r0 {
                Some(out) => {
                    proof {
                        assert(self.input@ == t);
                        assert(self.wf());
                    }
                    return Some(out);
                },
                None => {
                    proof {
                        assert(some_failure_at(ff, t, here as int));
                    }
                    if here >= n {
                        self.current_ix = start_ix;
                        return None;
                    }
                    self.current_ix = here + 1;
                },
            }
        }
    }
}

} // verus!
