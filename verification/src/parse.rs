//! Reader for the SAT-comp textual CNF format, over raw bytes: a header line
//! `p cnf <vars> <clauses>`, comment lines starting with `c` or `%`, then one
//! whitespace-separated clause per line, each terminated by `0`; a lone `0`
//! line ends the input early.

use vstd::prelude::*;
use vstd::string::StringExecFns;

use crate::clause::{strictly_sorted, Clause, Cnf};
use crate::lit::Lit;

verus! {

/// An ASCII decimal digit.
pub open spec fn is_digit(b: u8) -> bool {
    48 <= b <= 57
}

/// ASCII whitespace, as far as this format needs it.
pub open spec fn is_space(b: u8) -> bool {
    b == 32 || b == 9 || b == 13 || b == 10
}

/// The character of one decimal digit value.
pub open spec fn digit_char(d: int) -> char {
    if d == 0 {
        '0'
    } else if d == 1 {
        '1'
    } else if d == 2 {
        '2'
    } else if d == 3 {
        '3'
    } else if d == 4 {
        '4'
    } else if d == 5 {
        '5'
    } else if d == 6 {
        '6'
    } else if d == 7 {
        '7'
    } else if d == 8 {
        '8'
    } else {
        '9'
    }
}

/// The decimal representation of a number, most significant digit first.
pub open spec fn dec_chars(n: int) -> Seq<char>
    recommends
        n >= 0,
    decreases n,
{
    if n < 10 {
        seq![digit_char(n)]
    } else {
        dec_chars(n / 10).push(digit_char(n % 10))
    }
}

/// The value of a run of decimal digits.
pub open spec fn digits_val(s: Seq<u8>) -> int
    decreases s.len(),
{
    if s.len() == 0 {
        0
    } else {
        digits_val(s.drop_last()) * 10 + (s.last() - 48)
    }
}

/// Where the run of digits starting at `i` ends.
pub open spec fn digit_end(s: Seq<u8>, i: int) -> int
    decreases s.len() - i,
{
    if i < 0 || i >= s.len() || !is_digit(s[i]) {
        i
    } else {
        digit_end(s, i + 1)
    }
}

/// Where the run of whitespace starting at `i` ends.
pub open spec fn space_end(s: Seq<u8>, i: int) -> int
    decreases s.len() - i,
{
    if i < 0 || i >= s.len() || !is_space(s[i]) {
        i
    } else {
        space_end(s, i + 1)
    }
}

/// The end of a digit run lies between its start and the end of the input,
/// with digits up to it and none at it.
proof fn lemma_digit_end(s: Seq<u8>, i: int)
    requires
        0 <= i <= s.len(),
    ensures
        i <= digit_end(s, i) <= s.len(),
        forall|k: int| i <= k < digit_end(s, i) ==> is_digit(#[trigger] s[k]),
        digit_end(s, i) < s.len() ==> !is_digit(s[digit_end(s, i)]),
    decreases s.len() - i,
{
    if i < s.len() && is_digit(s[i]) {
        lemma_digit_end(s, i + 1);
    }
}

/// The same, for whitespace.
proof fn lemma_space_end(s: Seq<u8>, i: int)
    requires
        0 <= i <= s.len(),
    ensures
        i <= space_end(s, i) <= s.len(),
        forall|k: int| i <= k < space_end(s, i) ==> is_space(#[trigger] s[k]),
        space_end(s, i) < s.len() ==> !is_space(s[space_end(s, i)]),
    decreases s.len() - i,
{
    if i < s.len() && is_space(s[i]) {
        lemma_space_end(s, i + 1);
    }
}

/// What one literal token at position `i` means: `None` for a malformed or
/// oversized token, otherwise the token — `None` for the end-of-clause `0`
/// marker, `Some` for a literal — together with the position after it.
pub open spec fn lit_token(s: Seq<u8>, i: int) -> Option<(Option<Lit>, int)> {
    if i < 0 || i >= s.len() {
        None
    } else if s[i] == 45 {
        let e = digit_end(s, i + 1);
        let v = digits_val(s.subrange(i + 1, e));
        if e == i + 1 || v > usize::MAX || v == 0 {
            None
        } else {
            Some((Some(Lit { idx: v as usize, neg: true }), e))
        }
    } else if is_digit(s[i]) {
        let e = digit_end(s, i);
        let v = digits_val(s.subrange(i, e));
        if v > usize::MAX {
            None
        } else if v == 0 {
            Some((None, e))
        } else {
            Some((Some(Lit { idx: v as usize, neg: false }), e))
        }
    } else {
        None
    }
}

/// A digit run that has not ended yet ends where the rest of it ends.
proof fn lemma_digit_end_step(s: Seq<u8>, i: int)
    requires
        0 <= i < s.len(),
        is_digit(s[i]),
    ensures
        digit_end(s, i) == digit_end(s, i + 1),
{
}

/// Where the line starting at `i` ends: at the first newline, or at the end
/// of the input.
pub open spec fn line_end(s: Seq<u8>, i: int) -> int
    decreases s.len() - i,
{
    if i < 0 || i >= s.len() || s[i] == 10 {
        i
    } else {
        line_end(s, i + 1)
    }
}

/// The read position after consuming the line starting at `i` and its
/// newline, if any.
pub open spec fn after_line(s: Seq<u8>, i: int) -> int {
    if line_end(s, i) < s.len() {
        line_end(s, i) + 1
    } else {
        line_end(s, i)
    }
}

/// The end of a line lies between its start and the end of the input, with
/// no newline before it.
proof fn lemma_line_end(s: Seq<u8>, i: int)
    requires
        0 <= i <= s.len(),
    ensures
        i <= line_end(s, i) <= s.len(),
        forall|k: int| i <= k < line_end(s, i) ==> (#[trigger] s[k]) != 10,
        line_end(s, i) < s.len() ==> s[line_end(s, i)] == 10,
    decreases s.len() - i,
{
    if i < s.len() && s[i] != 10 {
        lemma_line_end(s, i + 1);
    }
}

/// A comment line: it starts with `c` or `%`.
pub open spec fn is_comment_line(line: Seq<u8>) -> bool {
    line.len() > 0 && (line[0] == 99 || line[0] == 37)
}

/// How many `0` bytes a line holds.
pub open spec fn zeros_in(line: Seq<u8>) -> int
    decreases line.len(),
{
    if line.len() == 0 {
        0
    } else {
        zeros_in(line.drop_last()) + if line.last() == 48 {
            1int
        } else {
            0int
        }
    }
}

/// A lone `0` line: blanks and exactly one `0`, nothing else.
pub open spec fn lone_zero_line(line: Seq<u8>) -> bool {
    (forall|k: int|
        0 <= k < line.len() ==> ((#[trigger] line[k]) == 48 || line[k] == 32 || line[k] == 9
            || line[k] == 13)) && zeros_in(line) == 1
}

/// Start of the first line at or after `i` that is not a comment.
pub open spec fn next_line_at(s: Seq<u8>, i: int) -> int
    decreases s.len() - i,
    via next_line_at_dec
{
    if i < 0 || i >= s.len() {
        i
    } else if is_comment_line(s.subrange(i, line_end(s, i))) {
        next_line_at(s, after_line(s, i))
    } else {
        i
    }
}

/// A comment line is nonempty, so skipping it moves the cursor forward.
#[via_fn]
proof fn next_line_at_dec(s: Seq<u8>, i: int) {
    if 0 <= i < s.len() {
        lemma_line_end(s, i);
        if is_comment_line(s.subrange(i, line_end(s, i))) {
            assert(line_end(s, i) > i);
        }
    }
}

/// The first non-comment line starts at or after `i`, inside the input, and
/// what stands before it is comment lines.
proof fn lemma_next_line_at(s: Seq<u8>, i: int)
    requires
        0 <= i <= s.len(),
    ensures
        i <= next_line_at(s, i) <= s.len(),
    decreases s.len() - i,
{
    if i < s.len() {
        lemma_line_end(s, i);
        if is_comment_line(s.subrange(i, line_end(s, i))) {
            lemma_next_line_at(s, after_line(s, i));
        }
    }
}

/// The literals of one clause from position `i` on: literal tokens, each
/// followed by at least one blank with more of the clause after it, until
/// the `0` end marker; anything else is an error.
pub open spec fn clause_lits(s: Seq<u8>, i: int) -> Option<Seq<Lit>>
    decreases s.len() - i,
    via clause_lits_dec
{
    match lit_token(s, i) {
        None => None,
        Some((tok, e)) => match tok {
            None => Some(Seq::empty()),
            Some(l) => {
                let e2 = space_end(s, e);
                if e2 == e && e < s.len() {
                    None
                } else if e2 == s.len() {
                    None
                } else {
                    match clause_lits(s, e2) {
                        None => None,
                        Some(rest) => Some(seq![l] + rest),
                    }
                }
            },
        },
    }
}

/// A literal token sits inside the line and spans at least one byte.
proof fn lemma_lit_token_bounds(s: Seq<u8>, i: int)
    requires
        lit_token(s, i) is Some,
    ensures
        0 <= i < s.len(),
        i < lit_token(s, i)->Some_0.1 <= s.len(),
{
    if 0 <= i < s.len() {
        if s[i] == 45 {
            lemma_digit_end(s, i + 1);
        } else if is_digit(s[i]) {
            lemma_digit_end(s, i);
            lemma_digit_end_step(s, i);
            lemma_digit_end(s, i + 1);
        }
    }
}

/// Each literal token read moves the clause forward.
#[via_fn]
proof fn clause_lits_dec(s: Seq<u8>, i: int) {
    if lit_token(s, i) is Some {
        lemma_lit_token_bounds(s, i);
        let e = lit_token(s, i)->Some_0.1;
        lemma_space_end(s, e);
    }
}

/// What one clause line means: its literals after leading blanks.
pub open spec fn line_clause(line: Seq<u8>) -> Option<Seq<Lit>> {
    clause_lits(line, space_end(line, 0))
}

/// What the reader makes of the input from position `i` on, with `got`
/// clauses already read of the `cap` the header declared: the raw literal
/// sequences of the clause lines, one per line, comments skipped, up to the
/// end of the input or a lone `0` line — which is an empty clause when it
/// comes below the declared count, and the end-of-input marker after that.
pub open spec fn read_clauses(s: Seq<u8>, i: int, got: int, cap: int) -> Option<Seq<Seq<Lit>>>
    decreases s.len() - i,
    via read_clauses_dec
{
    if i < 0 || i >= s.len() {
        Some(Seq::empty())
    } else {
        let line = s.subrange(i, line_end(s, i));
        let after = after_line(s, i);
        if is_comment_line(line) {
            read_clauses(s, after, got, cap)
        } else if lone_zero_line(line) {
            if got < cap {
                Some(seq![Seq::<Lit>::empty()])
            } else {
                Some(Seq::empty())
            }
        } else {
            match line_clause(line) {
                None => None,
                Some(lits) => match read_clauses(s, after, got + 1, cap) {
                    None => None,
                    Some(rest) => Some(seq![lits] + rest),
                },
            }
        }
    }
}

/// Every processed line moves the reader forward.
#[via_fn]
proof fn read_clauses_dec(s: Seq<u8>, i: int, got: int, cap: int) {
    if 0 <= i < s.len() {
        lemma_line_end(s, i);
        let line = s.subrange(i, line_end(s, i));
        if is_comment_line(line) {
            assert(line_end(s, i) > i);
        } else if !lone_zero_line(line) && line_clause(line) is Some {
            // A clause line is nonempty: the empty line has no tokens.
            if line.len() == 0 {
                assert(space_end(line, 0) == 0);
                assert(lit_token(line, 0) is None);
                assert(false);
            }
            assert(line_end(s, i) > i);
        }
    }
}

/// Reading from `i` is reading from the first non-comment line at or after
/// `i`.
proof fn lemma_read_clauses_skip(s: Seq<u8>, i: int, got: int, cap: int)
    requires
        0 <= i <= s.len(),
    ensures
        ({
            let ls = next_line_at(s, i);
            let line = s.subrange(ls, line_end(s, ls));
            read_clauses(s, i, got, cap) == (if ls >= s.len() {
                Some(Seq::<Seq<Lit>>::empty())
            } else if lone_zero_line(line) {
                if got < cap {
                    Some(seq![Seq::<Lit>::empty()])
                } else {
                    Some(Seq::<Seq<Lit>>::empty())
                }
            } else {
                match line_clause(line) {
                    Option::<Seq<Lit>>::None => None,
                    Some(lits) => match read_clauses(s, after_line(s, ls), got + 1, cap) {
                        Option::<Seq<Seq<Lit>>>::None => None,
                        Some(rest) => Some(seq![lits] + rest),
                    },
                }
            })
        }),
    decreases s.len() - i,
{
    if i < s.len() {
        lemma_line_end(s, i);
        let line0 = s.subrange(i, line_end(s, i));
        if is_comment_line(line0) {
            lemma_read_clauses_skip(s, after_line(s, i), got, cap);
        }
    }
}

/// At least one blank here, or the end of the line.
pub open spec fn space1_ok(s: Seq<u8>, i: int) -> bool {
    space_end(s, i) - i >= 1 || space_end(s, i) == s.len()
}

/// A nonempty digit run whose value fits the machine.
pub open spec fn unsigned_ok(s: Seq<u8>, i: int) -> bool {
    digit_end(s, i) > i && digits_val(s.subrange(i, digit_end(s, i))) <= usize::MAX
}

/// A well-formed header line: `p cnf`, then blanks and a variable count,
/// then blanks and a clause count.
pub open spec fn header_ok(line: Seq<u8>) -> bool {
    &&& line.len() >= 5
    &&& line[0] == 112
    &&& line[1] == 32
    &&& line[2] == 99
    &&& line[3] == 110
    &&& line[4] == 102
    &&& ({
        let t = line.subrange(5, line.len() as int);
        let e1 = space_end(t, 0);
        let d1 = digit_end(t, e1);
        let e2 = space_end(t, d1);
        space1_ok(t, 0) && unsigned_ok(t, e1) && space1_ok(t, d1) && unsigned_ok(t, e2)
    })
}

/// The clause count a well-formed header declares.
pub open spec fn header_clause_count(line: Seq<u8>) -> int {
    let t = line.subrange(5, line.len() as int);
    let e2 = space_end(t, digit_end(t, space_end(t, 0)));
    digits_val(t.subrange(e2, digit_end(t, e2)))
}

/// The variable count a well-formed header declares.
pub open spec fn header_var_count(line: Seq<u8>) -> int {
    let t = line.subrange(5, line.len() as int);
    let e1 = space_end(t, 0);
    digits_val(t.subrange(e1, digit_end(t, e1)))
}

/// Tokenizer for one line of the format: a byte slice and a cursor.
pub struct DisjParser<'a> {
    txt: &'a Vec<u8>,
    cursor: usize,
}

impl<'a> DisjParser<'a> {
    /// The bytes being read.
    pub closed spec fn txt_view(&self) -> Seq<u8> {
        self.txt@
    }

    /// The read position.
    pub closed spec fn at(&self) -> int {
        self.cursor as int
    }

    /// The cursor never leaves the text.
    pub open spec fn wf(&self) -> bool {
        0 <= self.at() <= self.txt_view().len()
    }

    /// Starts reading at the beginning of the line.
    pub fn new(txt: &'a Vec<u8>) -> (r: Self)
        ensures
            r.wf(),
            r.txt_view() == txt@,
            r.at() == 0,
    {
        DisjParser { txt, cursor: 0 }
    }

    /// True when every byte of the line has been read.
    pub fn at_end(&self) -> (r: bool)
        requires
            self.wf(),
        ensures
            r == (self.at() == self.txt_view().len()),
    {
        self.cursor == self.txt.len()
    }

    /// Skips whitespace; fails when fewer than `min` bytes were skipped and
    /// the line goes on.
    pub fn space(&mut self, min: usize) -> (r: Result<(), String>)
        requires
            old(self).wf(),
        ensures
            final(self).wf(),
            final(self).txt_view() == old(self).txt_view(),
            final(self).at() == space_end(old(self).txt_view(), old(self).at()),
            r is Ok <==> (space_end(old(self).txt_view(), old(self).at()) - old(self).at() >= min
                || space_end(old(self).txt_view(), old(self).at()) == old(self).txt_view().len()),
    {
        let ghost s = self.txt@;
        let ghost i0 = self.cursor as int;
        proof {
            lemma_space_end(s, i0);
        }
        let start = self.cursor;
        while self.cursor < self.txt.len() && (self.txt[self.cursor] == 32 || self.txt[self.cursor]
            == 9 || self.txt[self.cursor] == 13 || self.txt[self.cursor] == 10)
            invariant
                self.txt@ == s,
                s == old(self).txt_view(),
                i0 == old(self).at(),
                start as int == i0,
                i0 <= self.cursor as int <= s.len(),
                forall|k: int| i0 <= k < self.cursor as int ==> is_space(#[trigger] s[k]),
                space_end(s, i0) == space_end(s, self.cursor as int),
            decreases s.len() - self.cursor,
        {
            proof {
                assert(is_space(s[self.cursor as int]));
            }
            self.cursor = self.cursor + 1;
        }
        proof {
            assert(space_end(s, self.cursor as int) == self.cursor as int);
        }
        let skipped = self.cursor - start;
        if skipped >= min || self.cursor == self.txt.len() {
            Ok(())
        } else {
            Err(String::from_str("expected space character, got something else"))
        }
    }

    /// Reads a run of decimal digits as a number; fails on an empty run or
    /// on a value that does not fit.
    pub fn unsigned(&mut self) -> (r: Result<usize, String>)
        requires
            old(self).wf(),
        ensures
            final(self).wf(),
            final(self).txt_view() == old(self).txt_view(),
            r matches Ok(v) ==> final(self).at() == digit_end(
                old(self).txt_view(),
                old(self).at(),
            ) && old(self).at() < final(self).at() && v == digits_val(
                old(self).txt_view().subrange(old(self).at(), final(self).at()),
            ),
            r is Err ==> digit_end(old(self).txt_view(), old(self).at()) == old(self).at()
                || digits_val(
                old(self).txt_view().subrange(
                    old(self).at(),
                    digit_end(old(self).txt_view(), old(self).at()),
                ),
            ) > usize::MAX,
    {
        let ghost s = self.txt@;
        let ghost i0 = self.cursor as int;
        proof {
            lemma_space_end(s, i0);
            lemma_digit_end(s, i0);
        }
        if self.cursor == self.txt.len() || !(48 <= self.txt[self.cursor] && self.txt[self.cursor]
            <= 57) {
            proof {
                assert(digit_end(s, i0) == i0);
            }
            return Err(String::from_str("illegal number, expected a digit"));
        }
        let mut acc: usize = 0;
        proof {
            assert(s.subrange(i0, i0) =~= Seq::<u8>::empty());
        }
        while self.cursor < self.txt.len() && 48 <= self.txt[self.cursor] && self.txt[self.cursor]
            <= 57
            invariant
                self.txt@ == s,
                s == old(self).txt_view(),
                i0 == old(self).at(),
                0 <= i0,
                i0 <= self.cursor as int <= s.len(),
                forall|k: int| i0 <= k < self.cursor as int ==> is_digit(#[trigger] s[k]),
                digit_end(s, i0) == digit_end(s, self.cursor as int),
                acc == digits_val(s.subrange(i0, self.cursor as int)),
            decreases s.len() - self.cursor,
        {
            let d = self.txt[self.cursor];
            proof {
                assert(is_digit(s[self.cursor as int]));
                lemma_digit_end_step(s, self.cursor as int);
            }
            let shifted = match acc.checked_mul(10) {
                Some(x) => x,
                None => {
                    proof {
                        lemma_digits_val_overflow(s, i0, self.cursor as int);
                    }
                    return Err(String::from_str("illegal number, it does not fit"));
                },
            };
            let next = match shifted.checked_add((d - 48) as usize) {
                Some(x) => x,
                None => {
                    proof {
                        lemma_digits_val_overflow(s, i0, self.cursor as int);
                    }
                    return Err(String::from_str("illegal number, it does not fit"));
                },
            };
            acc = next;
            self.cursor = self.cursor + 1;
            proof {
                crate::seqs::lemma_subrange_push(s, self.cursor as int - 1);
                let pre = s.subrange(i0, self.cursor as int - 1);
                let cur = s.subrange(i0, self.cursor as int);
                assert(cur =~= pre.push(s[self.cursor as int - 1]));
                assert(cur.drop_last() =~= pre);
            }
        }
        proof {
            assert(digit_end(s, self.cursor as int) == self.cursor as int);
        }
        Ok(acc)
    }

    /// Reads one literal token: an optional `-`, then a number; a plain `0`
    /// is the end-of-clause marker, a negated `0` or a malformed or
    /// oversized token is an error.  The result is exactly what `lit_token`
    /// says of the bytes at the cursor.
    pub fn lit(&mut self) -> (r: Result<Option<Lit>, String>)
        requires
            old(self).wf(),
        ensures
            final(self).wf(),
            final(self).txt_view() == old(self).txt_view(),
            r matches Ok(tok) ==> lit_token(old(self).txt_view(), old(self).at()) == Some(
                (tok, final(self).at()),
            ),
            r is Err ==> lit_token(old(self).txt_view(), old(self).at()) is None,
            r matches Ok(Some(l)) ==> l.idx > 0,
            r matches Ok(k) ==> final(self).at() > old(self).at(),
    {
        let ghost s0 = self.txt@;
        let ghost i0 = self.cursor as int;
        let negated: bool;
        if self.cursor == self.txt.len() {
            return Err(String::from_str("expected literal, got end of line"));
        }
        if self.txt[self.cursor] == 45 {
            negated = true;
            self.cursor = self.cursor + 1;
        } else if 48 <= self.txt[self.cursor] && self.txt[self.cursor] <= 57 {
            negated = false;
        } else {
            return Err(String::from_str("expected literal, a `-` or a digit"));
        }
        let idx = match self.unsigned() {
            Ok(v) => v,
            Err(_) => {
                proof {
                    if !negated {
                        lemma_digit_end_step(s0, i0);
                        lemma_digit_end(s0, i0 + 1);
                        assert(digit_end(s0, i0) > i0);
                    }
                    assert(lit_token(s0, i0) is None);
                }
                return Err(String::from_str("expected literal index"));
            },
        };
        proof {
            if !negated {
                lemma_digit_end_step(s0, i0);
            }
        }
        if idx == 0 {
            if negated {
                Err(String::from_str("unexpected negated `0`, illegal end of line marker"))
            } else {
                Ok(None)
            }
        } else {
            Ok(Some(Lit::new(idx, negated)))
        }
    }
}

/// Once one more digit would overflow, the whole digit run's value is out
/// of range.
proof fn lemma_digits_val_overflow(s: Seq<u8>, i0: int, j: int)
    requires
        0 <= i0 <= j < s.len(),
        forall|k: int| i0 <= k < j ==> is_digit(#[trigger] s[k]),
        is_digit(s[j]),
        digit_end(s, i0) == digit_end(s, j),
        digits_val(s.subrange(i0, j)) * 10 + (s[j] - 48) > usize::MAX,
    ensures
        digits_val(s.subrange(i0, digit_end(s, i0))) > usize::MAX,
{
    lemma_digit_end(s, i0);
    assert(digit_end(s, j) == digit_end(s, j + 1));
    assert(s.subrange(i0, j + 1) =~= s.subrange(i0, j).push(s[j]));
    assert(s.subrange(i0, j + 1).drop_last() =~= s.subrange(i0, j));
    assert(digits_val(s.subrange(i0, j + 1)) > usize::MAX);
    lemma_digits_val_monotone(s, i0, j + 1, digit_end(s, i0));
}

/// A run of digits never has a negative value.
proof fn lemma_digits_val_nonneg(s: Seq<u8>)
    requires
        forall|k: int| 0 <= k < s.len() ==> is_digit(#[trigger] s[k]),
    ensures
        digits_val(s) >= 0,
    decreases s.len(),
{
    if s.len() > 0 {
        assert forall|k: int| 0 <= k < s.drop_last().len() implies is_digit(
            #[trigger] s.drop_last()[k],
        ) by {
            assert(s[k] == s.drop_last()[k]);
        };
        lemma_digits_val_nonneg(s.drop_last());
    }
}

/// Extending a digit run only grows its value.
proof fn lemma_digits_val_monotone(s: Seq<u8>, i0: int, a: int, b: int)
    requires
        0 <= i0 <= a <= b <= s.len(),
        forall|k: int| i0 <= k < b ==> is_digit(#[trigger] s[k]),
    ensures
        digits_val(s.subrange(i0, a)) <= digits_val(s.subrange(i0, b)),
    decreases b - a,
{
    if a < b {
        lemma_digits_val_monotone(s, i0, a + 1, b);
        assert(s.subrange(i0, a + 1) =~= s.subrange(i0, a).push(s[a]));
        assert(s.subrange(i0, a + 1).drop_last() =~= s.subrange(i0, a));
        assert forall|k: int| 0 <= k < s.subrange(i0, a).len() implies is_digit(
            #[trigger] s.subrange(i0, a)[k],
        ) by {
            assert(s.subrange(i0, a)[k] == s[i0 + k]);
        };
        lemma_digits_val_nonneg(s.subrange(i0, a));
        assert(is_digit(s[a]));
        assert(digits_val(s.subrange(i0, a)) <= digits_val(s.subrange(i0, a + 1)));
    }
}

/// A positive zero count means some byte is `0`.
proof fn lemma_zeros_exists(line: Seq<u8>)
    requires
        zeros_in(line) >= 1,
    ensures
        exists|k: int| 0 <= k < line.len() && line[k] == 48,
    decreases line.len(),
{
    if line.len() > 0 {
        if line.last() == 48 {
            assert(line[line.len() - 1] == 48);
        } else {
            lemma_zeros_exists(line.drop_last());
            let k = choose|k: int|
                0 <= k < line.drop_last().len() && line.drop_last()[k] == 48;
            assert(line[k] == 48);
        }
    }
}

/// Two `0` bytes make the zero count at least two.
proof fn lemma_zeros_two(line: Seq<u8>, a: int, b: int)
    requires
        0 <= a < b < line.len(),
        line[a] == 48,
        line[b] == 48,
    ensures
        zeros_in(line) >= 2,
    decreases line.len(),
{
    lemma_zeros_nonneg(line.subrange(0, b));
    if b == line.len() - 1 {
        lemma_zeros_one(line.drop_last(), a);
        assert(line.drop_last()[a] == 48);
    } else {
        lemma_zeros_two(line.drop_last(), a, b);
        lemma_zeros_nonneg(line.drop_last());
    }
}

/// A `0` byte makes the zero count at least one.
proof fn lemma_zeros_one(line: Seq<u8>, a: int)
    requires
        0 <= a < line.len(),
        line[a] == 48,
    ensures
        zeros_in(line) >= 1,
    decreases line.len(),
{
    if a == line.len() - 1 {
        lemma_zeros_nonneg(line.drop_last());
    } else {
        lemma_zeros_one(line.drop_last(), a);
        assert(line.drop_last()[a] == 48);
    }
}

/// Zero counts never go below zero.
proof fn lemma_zeros_nonneg(line: Seq<u8>)
    ensures
        zeros_in(line) >= 0,
    decreases line.len(),
{
    if line.len() > 0 {
        lemma_zeros_nonneg(line.drop_last());
    }
}

/// A lone `0` line reads as one empty clause.
proof fn lemma_lone_zero_clause(line: Seq<u8>)
    requires
        lone_zero_line(line),
    ensures
        line_clause(line) == Some(Seq::<Lit>::empty()),
{
    lemma_zeros_exists(line);
    lemma_space_end(line, 0);
    let p = space_end(line, 0);
    // The first byte that is not a blank is the one `0`.
    assert(p < line.len()) by {
        if p == line.len() {
            let k = choose|k: int| 0 <= k < line.len() && line[k] == 48;
            assert(is_space(line[k]));
        }
    }
    assert(line[p] == 48);
    // The digit run at it is that single `0`.
    assert(digit_end(line, p) == p + 1) by {
        if p + 1 < line.len() && is_digit(line[p + 1]) {
            assert(line[p + 1] == 48);
            lemma_zeros_two(line, p, p + 1);
        }
        lemma_digit_end_step(line, p);
    }
    assert(line.subrange(p, p + 1) =~= Seq::<u8>::empty().push(line[p]));
    assert(line.subrange(p, p + 1).drop_last() =~= Seq::<u8>::empty());
    assert(line.subrange(p, p + 1).last() == line[p]);
    assert(digits_val(Seq::<u8>::empty()) == 0);
    assert(digits_val(line.subrange(p, p + 1)) == digits_val(
        line.subrange(p, p + 1).drop_last(),
    ) * 10 + (line.subrange(p, p + 1).last() - 48));
    assert(digits_val(line.subrange(p, p + 1)) == 0);
    assert(lit_token(line, p) == Some((None::<Lit>, p + 1)));
}

/// SAT-comp CNF reader: the raw input, a read position, the current line,
/// and the clauses read so far.
pub struct Parser {
    input: Vec<u8>,
    cursor: usize,
    line_buf: Vec<u8>,
    line: usize,
    lit_count: usize,
    disj_count: usize,
    cnf: Cnf,
}

impl Parser {
    /// The cursor never leaves the input.
    pub closed spec fn wf(&self) -> bool {
        self.cursor <= self.input@.len()
    }

    /// How many clauses have been read so far.
    pub closed spec fn clauses_read(&self) -> Seq<Seq<Lit>> {
        self.cnf@
    }

    /// The raw input bytes.
    pub closed spec fn input_view(&self) -> Seq<u8> {
        self.input@
    }

    /// The read position.
    pub closed spec fn cursor_view(&self) -> int {
        self.cursor as int
    }

    /// The clause count the header declared.
    pub closed spec fn cap_view(&self) -> int {
        self.disj_count as int
    }

    /// Puts the next line that is not a comment into the line buffer, without
    /// its newline.  Returns the number of lines consumed, or zero when the
    /// end of input, or a lone `0` line, was reached.
    /// Puts the first line from the cursor on that is not a comment into the
    /// line buffer, without its newline, and steps past it.  Returns zero at
    /// the end of the input or on a lone `0` line, otherwise how many lines
    /// were consumed.
    fn read_line(&mut self) -> (r: usize)
        requires
            old(self).wf(),
        ensures
            final(self).wf(),
            final(self).input@ == old(self).input@,
            final(self).cnf@ == old(self).cnf@,
            final(self).lit_count == old(self).lit_count,
            final(self).disj_count == old(self).disj_count,
            final(self).line == old(self).line,
            r != 0 ==> old(self).cursor < final(self).cursor,
            final(self).line_buf@ == old(self).input@.subrange(
                next_line_at(old(self).input@, old(self).cursor as int),
                line_end(
                    old(self).input@,
                    next_line_at(old(self).input@, old(self).cursor as int),
                ),
            ),
            final(self).cursor == after_line(
                old(self).input@,
                next_line_at(old(self).input@, old(self).cursor as int),
            ),
            (r == 0) <==> (next_line_at(old(self).input@, old(self).cursor as int) == old(
                self,
            ).input@.len() || lone_zero_line(final(self).line_buf@)),
    {
        let ghost s = old(self).input@;
        let ghost c0 = old(self).cursor as int;
        let mut cnt: usize = 0;
        loop
            invariant
                self.wf(),
                self.input@ == s,
                s == old(self).input@,
                c0 == old(self).cursor as int,
                self.cnf@ == old(self).cnf@,
                self.lit_count == old(self).lit_count,
                self.disj_count == old(self).disj_count,
                self.line == old(self).line,
                next_line_at(s, c0) == next_line_at(s, self.cursor as int),
                cnt != 0 ==> c0 < self.cursor as int,
                cnt == 0 ==> c0 <= self.cursor as int,
            decreases self.input@.len() - self.cursor, usize::MAX - cnt,
        {
            let ghost line_start = self.cursor as int;
            let mut buf: Vec<u8> = Vec::new();
            proof {
                assert(buf@ =~= s.subrange(line_start, line_start));
            }
            // Collect one line.
            while self.cursor < self.input.len() && self.input[self.cursor] != 10
                invariant
                    self.wf(),
                    self.input@ == s,
                    self.cnf@ == old(self).cnf@,
                    self.lit_count == old(self).lit_count,
                    self.disj_count == old(self).disj_count,
                    self.line == old(self).line,
                    0 <= line_start,
                    c0 <= line_start,
                    line_start <= self.cursor as int,
                    self.cursor as int <= s.len(),
                    buf@ == s.subrange(line_start, self.cursor as int),
                    line_end(s, line_start) == line_end(s, self.cursor as int),
                decreases self.input@.len() - self.cursor,
            {
                let ghost pre_buf = buf@;
                buf.push(self.input[self.cursor]);
                self.cursor = self.cursor + 1;
                proof {
                    let c_new = self.cursor as int;
                    assert(buf@ == pre_buf.push(s[c_new - 1]));
                    crate::seqs::lemma_subrange_push_gen(s, line_start, c_new - 1);
                    assert(buf@ == s.subrange(line_start, c_new));
                }
            }
            let ghost le = self.cursor as int;
            proof {
                assert(line_end(s, le) == le);
                assert(line_end(s, line_start) == le);
                lemma_line_end(s, line_start);
            }
            let at_eof = self.cursor == self.input.len() && buf.len() == 0;
            if self.cursor < self.input.len() {
                // Step past the newline.
                self.cursor = self.cursor + 1;
            }
            proof {
                assert(self.cursor as int == after_line(s, line_start));
            }
            if at_eof {
                proof {
                    assert(line_start == s.len());
                    assert(next_line_at(s, line_start) == line_start);
                }
                self.line_buf = buf;
                return 0;
            }
            if is_lone_zero(&buf) {
                proof {
                    // A lone `0` line holds no `c` or `%`, so it is the line
                    // the spec stops at.
                    assert(zeros_in(buf@) == 1);
                    assert(buf@.len() > 0) by {
                        if buf@.len() == 0 {
                            assert(zeros_in(buf@) == 0);
                        }
                    }
                    assert(buf@[0] == 48 || buf@[0] == 32 || buf@[0] == 9 || buf@[0] == 13);
                    assert(!is_comment_line(buf@));
                    assert(next_line_at(s, line_start) == line_start);
                }
                self.line_buf = buf;
                return 0;
            }
            if cnt < usize::MAX {
                cnt = cnt + 1;
            }
            if buf.len() > 0 && (buf[0] == 99 || buf[0] == 37) {
                // A comment line: move on.
                proof {
                    assert(is_comment_line(buf@));
                    assert(line_start < s.len());
                    assert(next_line_at(s, line_start) == next_line_at(s, after_line(s, line_start)));
                }
            } else {
                proof {
                    assert(!is_comment_line(buf@));
                    assert(line_start < s.len()) by {
                        if line_start == s.len() {
                            assert(le == s.len());
                            assert(buf@.len() == 0);
                        }
                    }
                    assert(next_line_at(s, line_start) == line_start);
                }
                self.line_buf = buf;
                return cnt;
            }
        }
    }

    /// Constructor: reads the header line `p cnf <vars> <clauses>`, skipping
    /// comments before it.  It succeeds exactly when the first line that is
    /// not a comment — and not the end of the input or a lone `0` line — is a
    /// well-formed header.
    pub fn new(input: Vec<u8>) -> (r: Result<Parser, String>)
        ensures
            ({
                let ls = next_line_at(input@, 0);
                let hline = input@.subrange(ls, line_end(input@, ls));
                &&& ((r is Ok) <==> (ls < input@.len() && !lone_zero_line(hline) && header_ok(
                    hline,
                )))
                &&& (r matches Ok(p) ==> p.wf() && p.clauses_read().len() == 0 && p.input_view()
                    == input@ && p.cursor_view() == after_line(input@, ls) && p.cap_view()
                    == header_clause_count(hline))
            }),
    {
        let ghost s0 = input@;
        let mut parser = Parser {
            input,
            cursor: 0,
            line_buf: Vec::new(),
            line: 0,
            lit_count: 0,
            disj_count: 0,
            cnf: Cnf::empty(),
        };
        let lines_read = parser.read_line();
        if lines_read == 0 {
            return Err(header_error());
        }
        parser.line = lines_read;
        // The line must start with `p cnf`.
        let buf = &parser.line_buf;
        if buf.len() < 5 {
            return Err(header_error());
        }
        if !(buf[0] == 112 && buf[1] == 32 && buf[2] == 99 && buf[3] == 110 && buf[4] == 102) {
            return Err(header_error());
        }
        let tail = tail_from(buf, 5);
        let mut mini = DisjParser::new(&tail);
        if mini.space(1).is_err() {
            return Err(header_error());
        }
        let lit_count = match mini.unsigned() {
            Ok(v) => v,
            Err(_) => {
                return Err(header_error());
            },
        };
        if mini.space(1).is_err() {
            return Err(header_error());
        }
        let disj_count = match mini.unsigned() {
            Ok(v) => v,
            Err(_) => {
                return Err(header_error());
            },
        };
        parser.lit_count = lit_count;
        parser.disj_count = disj_count;
        parser.cnf = Cnf::with_capacity(disj_count);
        Ok(parser)
    }

    /// The line the reader stopped on.
    pub closed spec fn line_view(&self) -> int {
        self.line as int
    }

    /// An error message naming the line the reader stopped on, and the
    /// line's text.
    pub fn fail(&self, msg: &str) -> (r: String)
        ensures
            r@ == "error line "@ + dec_chars(self.line_view()) + ": "@ + msg@ + " `"@
                + line_chars(self.line_buf_view()) + "`"@,
    {
        let mut out = String::from_str("error line ");
        out.append(usize_digits(self.line).as_str());
        out.append(": ");
        out.append(msg);
        out.append(" `");
        let ghost lb = self.line_buf@;
        let ghost head = out@;
        proof {
            assert(lb.subrange(0, 0) =~= Seq::<u8>::empty());
            assert(line_chars(lb.subrange(0, 0)) =~= Seq::<char>::empty());
            assert(head + line_chars(lb.subrange(0, 0)) =~= head);
        }
        let n = self.line_buf.len();
        let mut i: usize = 0;
        while i < n
            invariant
                n == lb.len(),
                lb == self.line_buf@,
                0 <= i <= n,
                out@ == head + line_chars(lb.subrange(0, i as int)),
            decreases n - i,
        {
            out.append(byte_str(self.line_buf[i]));
            proof {
                crate::seqs::lemma_subrange_push(lb, i as int);
                assert(line_chars(lb.subrange(0, i + 1)) =~= line_chars(
                    lb.subrange(0, i as int),
                ).push(byte_char(lb[i as int])));
                assert(out@ =~= head + line_chars(lb.subrange(0, i + 1)));
            }
            i = i + 1;
        }
        out.append("`");
        proof {
            crate::seqs::lemma_subrange_all(lb);
            assert("error line "@ + dec_chars(self.line as int) + ": "@ + msg@ + " `"@ + line_chars(
                lb,
            ) + "`"@ =~= out@);
        }
        out
    }

    /// The buffered line the reader stopped on.
    pub closed spec fn line_buf_view(&self) -> Seq<u8> {
        self.line_buf@
    }

    /// Reads the clause on the current line and stores it.
    /// Reads the clause on the current line and stores it: exactly the
    /// literals that `line_clause` gives for the buffered line, sorted and
    /// duplicate-free, and an error exactly when the line is malformed.
    fn parse_clause(&mut self) -> (r: Result<(), String>)
        requires
            old(self).wf(),
        ensures
            final(self).wf(),
            final(self).input@ == old(self).input@,
            final(self).cursor == old(self).cursor,
            final(self).lit_count == old(self).lit_count,
            final(self).disj_count == old(self).disj_count,
            final(self).line == old(self).line,
            final(self).line_buf@ == old(self).line_buf@,
            (r is Ok) <==> (line_clause(old(self).line_buf@) is Some),
            r is Ok ==> final(self).cnf@.len() == old(self).cnf@.len() + 1 && (forall|k: int|
                0 <= k < old(self).cnf@.len() ==> final(self).cnf@[k] == old(self).cnf@[k])
                && final(self).cnf@.last().to_set() == line_clause(
                old(self).line_buf@,
            )->Some_0.to_set() && strictly_sorted(final(self).cnf@.last()),
            r is Err ==> final(self).cnf@ == old(self).cnf@,
    {
        let ghost lb = old(self).line_buf@;
        let line = tail_from(&self.line_buf, 0);
        proof {
            crate::seqs::lemma_subrange_all(lb);
            assert(line@ == lb);
        }
        let mut mini = DisjParser::new(&line);
        let mut clause = Clause::with_capacity(7);
        let ghost mut got: Seq<Lit> = Seq::empty();
        if mini.space(0).is_err() {
            proof {
                assert(false);
            }
            return Err(String::from_str("while reading spaces on this line"));
        }
        proof {
            assert(got + Seq::<Lit>::empty() =~= got);
        }
        loop
            invariant_except_break
                mini.wf(),
                mini.txt_view() == lb,
                line_clause(lb) == (match clause_lits(lb, mini.at()) {
                    Option::<Seq<Lit>>::None => None,
                    Some(rest) => Some(got + rest),
                }),
            invariant
                lb == old(self).line_buf@,
                self.wf(),
                self == old(self),
                clause@.to_set() == got.to_set(),
                strictly_sorted(clause@),
            ensures
                line_clause(lb) == Some(got),
            decreases lb.len() - mini.at(), 1int,
        {
            let ghost at0 = mini.at();
            match mini.lit() {
                Ok(Some(l)) => {
                    proof {
                        crate::seqs::lemma_to_set_push(got, l);
                    }
                    clause.push(l);
                    let ghost got2 = got.push(l);
                    let ghost e = mini.at();
                    proof {
                        lemma_space_end(lb, e);
                    }
                    if mini.space(1).is_err() {
                        proof {
                            assert(space_end(lb, e) == e && e < lb.len());
                            assert(clause_lits(lb, at0) is None);
                        }
                        return Err(String::from_str("while reading a space after a literal"));
                    }
                    proof {
                        lemma_space_end(lb, e);
                    }
                    if mini.at_end() {
                        // The line ended without its `0` marker.
                        proof {
                            assert(space_end(lb, e) == lb.len());
                            assert(clause_lits(lb, at0) is None);
                        }
                        return Err(String::from_str("line ended before its `0` marker"));
                    }
                    proof {
                        // One literal consumed: what remains is the tail of
                        // the clause.
                        assert(clause_lits(lb, at0) == (match clause_lits(lb, mini.at()) {
                            Option::<Seq<Lit>>::None => None,
                            Some(rest) => Some(seq![l] + rest),
                        }));
                        if clause_lits(lb, mini.at()) is Some {
                            let rest = clause_lits(lb, mini.at())->Some_0;
                            assert(got + (seq![l] + rest) =~= got2 + rest);
                        }
                        got = got2;
                    }
                },
                Ok(None) => {
                    proof {
                        assert(clause_lits(lb, at0) == Some(Seq::<Lit>::empty()));
                        assert(got + Seq::<Lit>::empty() =~= got);
                        assert(line_clause(lb) == Some(got));
                    }
                    break ;
                },
                Err(e) => {
                    proof {
                        assert(clause_lits(lb, at0) is None);
                    }
                    return Err(e);
                },
            }
        }
        self.cnf.push(clause);
        Ok(())
    }

    /// Reads every clause line and hands the formula back: exactly the
    /// clauses that `read_clauses` gives for the input from the cursor on —
    /// one clause per non-comment line up to the end of the input or a lone
    /// `0` line, each sorted and duplicate-free — and an error exactly when
    /// some line is malformed.
    pub fn parse(self) -> (r: Result<Cnf, String>)
        requires
            self.wf(),
        ensures
            ({
                let rc = read_clauses(
                    self.input_view(),
                    self.cursor_view(),
                    self.clauses_read().len() as int,
                    self.cap_view(),
                );
                &&& ((r is Ok) <==> (rc is Some))
                &&& (r matches Ok(c) ==> ({
                    let raw = rc->Some_0;
                    &&& c@.len() == self.clauses_read().len() + raw.len()
                    &&& (forall|k: int|
                        0 <= k < self.clauses_read().len() ==> c@[k] == self.clauses_read()[k])
                    &&& (forall|k: int|
                        0 <= k < raw.len() ==> (#[trigger] c@[self.clauses_read().len()
                            + k]).to_set() == raw[k].to_set() && strictly_sorted(
                            c@[self.clauses_read().len() + k],
                        ))
                }))
            }),
    {
        let ghost s = self.input@;
        let ghost c0 = self.cursor as int;
        let ghost n0 = self.cnf@;
        let ghost cap = self.disj_count as int;
        let ghost total = read_clauses(s, c0, n0.len() as int, cap);
        let mut parser = self;
        let ghost mut raw_done: Seq<Seq<Lit>> = Seq::empty();
        proof {
            assert(raw_done + read_clauses(s, c0, n0.len() as int, cap)->Some_0 =~= read_clauses(
                s,
                c0,
                n0.len() as int,
                cap,
            )->Some_0);
        }
        loop
            invariant_except_break
                parser.wf(),
                parser.input@ == s,
                parser.disj_count as int == cap,
                total == (match read_clauses(s, parser.cursor as int, parser.cnf@.len() as int, cap) {
                    Option::<Seq<Seq<Lit>>>::None => None,
                    Some(rem) => Some(raw_done + rem),
                }),
            invariant
                s == self.input@,
                c0 == self.cursor_view(),
                cap == self.cap_view(),
                total == read_clauses(s, c0, n0.len() as int, cap),
                n0 == self.cnf@,
                parser.cnf@.len() == n0.len() + raw_done.len(),
                forall|k: int| 0 <= k < n0.len() ==> parser.cnf@[k] == n0[k],
                forall|k: int|
                    0 <= k < raw_done.len() ==> (#[trigger] parser.cnf@[n0.len() + k]).to_set()
                        == raw_done[k].to_set() && strictly_sorted(parser.cnf@[n0.len() + k]),
            ensures
                total == Some(raw_done),
            decreases parser.input@.len() - parser.cursor,
        {
            let ghost cur = parser.cursor as int;
            let ghost ngot = parser.cnf@.len() as int;
            proof {
                lemma_next_line_at(s, cur);
                lemma_read_clauses_skip(s, cur, ngot, cap);
            }
            let lines_read = parser.read_line();
            let ghost ls = next_line_at(s, cur);
            let ghost hline = s.subrange(ls, line_end(s, ls));
            if lines_read == 0 {
                // The end of the input, or a lone `0` line.
                if is_lone_zero(&parser.line_buf) {
                    proof {
                        assert(ls < s.len()) by {
                            if ls == s.len() {
                                assert(hline =~= Seq::<u8>::empty());
                            }
                        }
                    }
                    if parser.cnf.len() < parser.disj_count {
                        // Below the declared clause count the lone `0` is an
                        // empty clause.
                        proof {
                            lemma_lone_zero_clause(hline);
                        }
                        match parser.parse_clause() {
                            Ok(()) => {
                                proof {
                                    raw_done = raw_done + seq![Seq::<Lit>::empty()];
                                    assert(Seq::<Lit>::empty().to_set() =~= line_clause(
                                        hline,
                                    )->Some_0.to_set());
                                    assert(total == Some(raw_done)) by {
                                        assert(read_clauses(s, cur, ngot, cap) == Some(
                                            seq![Seq::<Lit>::empty()],
                                        ));
                                    }
                                }
                            },
                            Err(_) => {
                                proof {
                                    assert(false);
                                }
                                return Err(String::from_str("unreachable"));
                            },
                        }
                    } else {
                        proof {
                            assert(read_clauses(s, cur, ngot, cap) == Some(
                                Seq::<Seq<Lit>>::empty(),
                            ));
                            assert(raw_done + Seq::<Seq<Lit>>::empty() =~= raw_done);
                            assert(total == Some(raw_done));
                        }
                    }
                } else {
                    // The end of the input.
                    proof {
                        assert(ls == s.len());
                        assert(read_clauses(s, cur, ngot, cap) == Some(Seq::<Seq<Lit>>::empty()));
                        assert(raw_done + Seq::<Seq<Lit>>::empty() =~= raw_done);
                        assert(total == Some(raw_done));
                    }
                }
                break ;
            }
            if parser.line <= usize::MAX - lines_read {
                parser.line = parser.line + lines_read;
            }
            proof {
                assert(ls < s.len() && !lone_zero_line(hline));
            }
            let ghost pre_raw = raw_done;
            if let Err(e) = parser.parse_clause() {
                proof {
                    assert(line_clause(hline) is None);
                    assert(read_clauses(s, cur, ngot, cap) is None);
                    assert(total is None);
                }
                let mut out = parser.fail("while reading this line: ");
                out.append(e.as_str());
                return Err(out);
            }
            proof {
                let lits = line_clause(hline)->Some_0;
                raw_done = raw_done + seq![lits];
                if read_clauses(s, parser.cursor as int, parser.cnf@.len() as int, cap) is Some {
                    let rem = read_clauses(
                        s,
                        parser.cursor as int,
                        parser.cnf@.len() as int,
                        cap,
                    )->Some_0;
                    assert(pre_raw + (seq![lits] + rem) =~= (pre_raw + seq![lits]) + rem);
                }
            }
        }
        proof {
            if total is Some {
                assert(raw_done + Seq::<Seq<Lit>>::empty() =~= raw_done);
            }
        }
        Ok(parser.cnf)
    }
}

/// True when the buffer holds exactly one `0`, surrounded only by blanks.
fn is_lone_zero(buf: &Vec<u8>) -> (r: bool)
    ensures
        r == lone_zero_line(buf@),
{
    let mut i: usize = 0;
    let mut zeros: usize = 0;
    let n = buf.len();
    while i < n
        invariant
            n == buf@.len(),
            0 <= i <= n,
            zeros <= i,
            zeros == zeros_in(buf@.subrange(0, i as int)),
            forall|k: int|
                0 <= k < i ==> ((#[trigger] buf@[k]) == 48 || buf@[k] == 32 || buf@[k] == 9
                    || buf@[k] == 13),
        decreases n - i,
    {
        let b = buf[i];
        proof {
            crate::seqs::lemma_subrange_push(buf@, i as int);
            assert(buf@.subrange(0, i + 1).drop_last() =~= buf@.subrange(0, i as int));
        }
        if b == 48 {
            zeros = zeros + 1;
        } else if b == 32 || b == 9 || b == 13 {
            // Blank: fine either way.
        } else {
            return false;
        }
        i = i + 1;
    }
    proof {
        crate::seqs::lemma_subrange_all(buf@);
    }
    zeros == 1
}

/// Copies the bytes of `buf` from `from` on.
fn tail_from(buf: &Vec<u8>, from: usize) -> (r: Vec<u8>)
    ensures
        from <= buf@.len() ==> r@ == buf@.subrange(from as int, buf@.len() as int),
{
    let mut r: Vec<u8> = Vec::new();
    let mut i: usize = from;
    let n = buf.len();
    while i < n
        invariant
            n == buf@.len(),
            from <= i,
            from <= buf@.len() ==> (i <= n && r@ == buf@.subrange(from as int, i as int)),
            from > buf@.len() ==> r@.len() == 0,
        decreases n - i,
    {
        r.push(buf[i]);
        proof {
            if from <= buf@.len() {
                crate::seqs::lemma_subrange_push(buf@, i as int);
                assert(buf@.subrange(from as int, i + 1) =~= buf@.subrange(from as int, i as int).push(
                    buf@[i as int],
                ));
            }
        }
        i = i + 1;
    }
    r
}

/// The header diagnostic.
fn header_error() -> (r: String)
{
    String::from_str("error on first line that is not a comment, expected `p cnf <int> <int>`")
}

/// One byte of a line as a character: itself when printable, `?` otherwise.
pub open spec fn byte_char(b: u8) -> char {
    if 32 <= b < 127 {
        b as char
    } else {
        '?'
    }
}

/// A line of bytes as text, unprintable bytes shown as `?`.
pub open spec fn line_chars(s: Seq<u8>) -> Seq<char> {
    s.map_values(|b: u8| byte_char(b))
}

/// One byte as text.
fn byte_str(b: u8) -> (r: &'static str)
    ensures
        r@ == seq![byte_char(b)],
{
    proof {
        reveal_strlit("?");
        reveal_strlit(" ");
        reveal_strlit("!");
        reveal_strlit("\"");
        reveal_strlit("#");
        reveal_strlit("$");
        reveal_strlit("%");
        reveal_strlit("&");
        reveal_strlit("'");
        reveal_strlit("(");
        reveal_strlit(")");
        reveal_strlit("*");
        reveal_strlit("+");
        reveal_strlit(",");
        reveal_strlit("-");
        reveal_strlit(".");
        reveal_strlit("/");
        reveal_strlit("0");
        reveal_strlit("1");
        reveal_strlit("2");
        reveal_strlit("3");
        reveal_strlit("4");
        reveal_strlit("5");
        reveal_strlit("6");
        reveal_strlit("7");
        reveal_strlit("8");
        reveal_strlit("9");
        reveal_strlit(":");
        reveal_strlit(";");
        reveal_strlit("<");
        reveal_strlit("=");
        reveal_strlit(">");
        reveal_strlit("?");
        reveal_strlit("@");
        reveal_strlit("A");
        reveal_strlit("B");
        reveal_strlit("C");
        reveal_strlit("D");
        reveal_strlit("E");
        reveal_strlit("F");
        reveal_strlit("G");
        reveal_strlit("H");
        reveal_strlit("I");
        reveal_strlit("J");
        reveal_strlit("K");
        reveal_strlit("L");
        reveal_strlit("M");
        reveal_strlit("N");
        reveal_strlit("O");
        reveal_strlit("P");
        reveal_strlit("Q");
        reveal_strlit("R");
        reveal_strlit("S");
        reveal_strlit("T");
        reveal_strlit("U");
        reveal_strlit("V");
        reveal_strlit("W");
        reveal_strlit("X");
        reveal_strlit("Y");
        reveal_strlit("Z");
        reveal_strlit("[");
        reveal_strlit("\\");
        reveal_strlit("]");
        reveal_strlit("^");
        reveal_strlit("_");
        reveal_strlit("`");
        reveal_strlit("a");
        reveal_strlit("b");
        reveal_strlit("c");
        reveal_strlit("d");
        reveal_strlit("e");
        reveal_strlit("f");
        reveal_strlit("g");
        reveal_strlit("h");
        reveal_strlit("i");
        reveal_strlit("j");
        reveal_strlit("k");
        reveal_strlit("l");
        reveal_strlit("m");
        reveal_strlit("n");
        reveal_strlit("o");
        reveal_strlit("p");
        reveal_strlit("q");
        reveal_strlit("r");
        reveal_strlit("s");
        reveal_strlit("t");
        reveal_strlit("u");
        reveal_strlit("v");
        reveal_strlit("w");
        reveal_strlit("x");
        reveal_strlit("y");
        reveal_strlit("z");
        reveal_strlit("{");
        reveal_strlit("|");
        reveal_strlit("}");
        reveal_strlit("~");
    }
    if b < 32 || b >= 127 {
        "?"
    } else if b == 32 {
        " "
    } else if b == 33 {
        "!"
    } else if b == 34 {
        "\""
    } else if b == 35 {
        "#"
    } else if b == 36 {
        "$"
    } else if b == 37 {
        "%"
    } else if b == 38 {
        "&"
    } else if b == 39 {
        "'"
    } else if b == 40 {
        "("
    } else if b == 41 {
        ")"
    } else if b == 42 {
        "*"
    } else if b == 43 {
        "+"
    } else if b == 44 {
        ","
    } else if b == 45 {
        "-"
    } else if b == 46 {
        "."
    } else if b == 47 {
        "/"
    } else if b == 48 {
        "0"
    } else if b == 49 {
        "1"
    } else if b == 50 {
        "2"
    } else if b == 51 {
        "3"
    } else if b == 52 {
        "4"
    } else if b == 53 {
        "5"
    } else if b == 54 {
        "6"
    } else if b == 55 {
        "7"
    } else if b == 56 {
        "8"
    } else if b == 57 {
        "9"
    } else if b == 58 {
        ":"
    } else if b == 59 {
        ";"
    } else if b == 60 {
        "<"
    } else if b == 61 {
        "="
    } else if b == 62 {
        ">"
    } else if b == 63 {
        "?"
    } else if b == 64 {
        "@"
    } else if b == 65 {
        "A"
    } else if b == 66 {
        "B"
    } else if b == 67 {
        "C"
    } else if b == 68 {
        "D"
    } else if b == 69 {
        "E"
    } else if b == 70 {
        "F"
    } else if b == 71 {
        "G"
    } else if b == 72 {
        "H"
    } else if b == 73 {
        "I"
    } else if b == 74 {
        "J"
    } else if b == 75 {
        "K"
    } else if b == 76 {
        "L"
    } else if b == 77 {
        "M"
    } else if b == 78 {
        "N"
    } else if b == 79 {
        "O"
    } else if b == 80 {
        "P"
    } else if b == 81 {
        "Q"
    } else if b == 82 {
        "R"
    } else if b == 83 {
        "S"
    } else if b == 84 {
        "T"
    } else if b == 85 {
        "U"
    } else if b == 86 {
        "V"
    } else if b == 87 {
        "W"
    } else if b == 88 {
        "X"
    } else if b == 89 {
        "Y"
    } else if b == 90 {
        "Z"
    } else if b == 91 {
        "["
    } else if b == 92 {
        "\\"
    } else if b == 93 {
        "]"
    } else if b == 94 {
        "^"
    } else if b == 95 {
        "_"
    } else if b == 96 {
        "`"
    } else if b == 97 {
        "a"
    } else if b == 98 {
        "b"
    } else if b == 99 {
        "c"
    } else if b == 100 {
        "d"
    } else if b == 101 {
        "e"
    } else if b == 102 {
        "f"
    } else if b == 103 {
        "g"
    } else if b == 104 {
        "h"
    } else if b == 105 {
        "i"
    } else if b == 106 {
        "j"
    } else if b == 107 {
        "k"
    } else if b == 108 {
        "l"
    } else if b == 109 {
        "m"
    } else if b == 110 {
        "n"
    } else if b == 111 {
        "o"
    } else if b == 112 {
        "p"
    } else if b == 113 {
        "q"
    } else if b == 114 {
        "r"
    } else if b == 115 {
        "s"
    } else if b == 116 {
        "t"
    } else if b == 117 {
        "u"
    } else if b == 118 {
        "v"
    } else if b == 119 {
        "w"
    } else if b == 120 {
        "x"
    } else if b == 121 {
        "y"
    } else if b == 122 {
        "z"
    } else if b == 123 {
        "{"
    } else if b == 124 {
        "|"
    } else if b == 125 {
        "}"
    } else if b == 126 {
        "~"
    } else {
        "?"
    }
}

/// The decimal digits of a number, as text.
fn usize_digits(n: usize) -> (r: String)
    ensures
        r@ == dec_chars(n as int),
    decreases n,
{
    if n < 10 {
        digit_str(n).to_owned()
    } else {
        let mut out = usize_digits(n / 10);
        out.append(digit_str(n % 10));
        proof {
            assert(dec_chars((n / 10) as int).push(digit_char(n as int % 10)) =~= dec_chars(
                (n / 10) as int,
            ) + seq![digit_char(n as int % 10)]);
        }
        out
    }
}

/// One digit as text.
fn digit_str(d: usize) -> (r: &'static str)
    requires
        d < 10,
    ensures
        r@ == seq![digit_char(d as int)],
{
    proof {
        reveal_strlit("0");
        reveal_strlit("1");
        reveal_strlit("2");
        reveal_strlit("3");
        reveal_strlit("4");
        reveal_strlit("5");
        reveal_strlit("6");
        reveal_strlit("7");
        reveal_strlit("8");
        reveal_strlit("9");
    }
    if d == 0 {
        "0"
    } else if d == 1 {
        "1"
    } else if d == 2 {
        "2"
    } else if d == 3 {
        "3"
    } else if d == 4 {
        "4"
    } else if d == 5 {
        "5"
    } else if d == 6 {
        "6"
    } else if d == 7 {
        "7"
    } else if d == 8 {
        "8"
    } else {
        "9"
    }
}

} // verus!
