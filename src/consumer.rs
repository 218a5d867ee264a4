//! A forward-only cursor over the characters of a string.
use vstd::prelude::*;
use crate::text::{char_to_string, chars_to_string, find_chars, str_to_chars};

verus! {

/// A space or a tab: what separates words for the cursor.
pub open spec fn is_blank(c: char) -> bool {
    c == ' ' || c == '\t'
}

/// An ASCII decimal digit.
pub open spec fn is_digit(c: char) -> bool {
    '0' <= c && c <= '9'
}

/// The value of an ASCII digit.
pub open spec fn digit_value(c: char) -> nat {
    (c as u32 - '0' as u32) as nat
}

/// The first index at or after `i` that holds a blank, or the end of `s`.
pub open spec fn word_end(s: Seq<char>, i: int) -> int
    decreases s.len() - i,
{
    if 0 <= i < s.len() && !is_blank(s[i]) {
        word_end(s, i + 1)
    } else {
        i
    }
}

/// The first index at or after `i` that holds no blank, or the end of `s`.
pub open spec fn blank_end(s: Seq<char>, i: int) -> int
    decreases s.len() - i,
{
    if 0 <= i < s.len() && is_blank(s[i]) {
        blank_end(s, i + 1)
    } else {
        i
    }
}

/// The first index at or after `i` that holds no digit, or the end of `s`.
pub open spec fn digits_end(s: Seq<char>, i: int) -> int
    decreases s.len() - i,
{
    if 0 <= i < s.len() && is_digit(s[i]) {
        digits_end(s, i + 1)
    } else {
        i
    }
}

/// The number that a run of decimal digits writes.
pub open spec fn decimal_value(s: Seq<char>) -> nat
    decreases s.len(),
{
    if s.len() == 0 {
        0
    } else {
        decimal_value(s.drop_last()) * 10 + digit_value(s.last())
    }
}

/// `n`, or `usize::MAX` where `n` does not fit.
pub open spec fn saturate(n: nat) -> usize {
    if n <= usize::MAX {
        n as usize
    } else {
        usize::MAX
    }
}

/// Whether `d` stands in `s` at index `i`.
pub open spec fn occurs_at(s: Seq<char>, i: int, d: Seq<char>) -> bool {
    0 <= i && i + d.len() <= s.len() && s.subrange(i, i + d.len()) == d
}

/// The first index at or after `i` where `d` stands in `s`, if any.
pub open spec fn find_from(s: Seq<char>, i: int, d: Seq<char>) -> Option<int>
    decreases s.len() + 1 - i,
{
    if i < 0 || i + d.len() > s.len() {
        None
    } else if s.subrange(i, i + d.len()) == d {
        Some(i)
    } else {
        find_from(s, i + 1, d)
    }
}

/// Each scan from `i` stops between `i` and the end; one that skips blanks
/// moves past a blank at `i`.
pub proof fn lemma_scan_bounds(s: Seq<char>, i: int)
    requires
        0 <= i <= s.len(),
    ensures
        i <= word_end(s, i) <= s.len(),
        i <= blank_end(s, i) <= s.len(),
        i <= digits_end(s, i) <= s.len(),
        i < s.len() && is_blank(s[i]) ==> i < blank_end(s, i),
    decreases s.len() - i,
{
    if i < s.len() {
        lemma_scan_bounds(s, i + 1);
    }
}

/// A delimiter that stands nowhere in `s` is found from no index.
pub proof fn lemma_find_from_absent(s: Seq<char>, i: int, d: Seq<char>)
    requires
        forall|j: int| !occurs_at(s, j, d),
    ensures
        find_from(s, i, d) is None,
    decreases s.len() + 1 - i,
{
    if i < 0 || i + d.len() > s.len() {
    } else {
        assert(!occurs_at(s, i, d));
        lemma_find_from_absent(s, i + 1, d);
    }
}

/// What `find_from` returns is a place where the delimiter stands, the first
/// one from `i` on.
pub proof fn lemma_find_from_first(s: Seq<char>, i: int, d: Seq<char>)
    requires
        0 <= i,
    ensures
        match find_from(s, i, d) {
            Some(k) => i <= k && occurs_at(s, k, d) && forall|j: int|
                i <= j < k ==> !occurs_at(s, j, d),
            None => forall|j: int| i <= j ==> !occurs_at(s, j, d),
        },
    decreases s.len() + 1 - i,
{
    if i + d.len() > s.len() {
    } else if s.subrange(i, i + d.len()) == d {
    } else {
        lemma_find_from_first(s, i + 1, d);
    }
}

/// A cursor over a fixed sequence of characters. Only its position changes,
/// and only forward.
pub struct Consumer {
    queue: Vec<char>,
    pos: usize,
}

impl Consumer {
    /// The characters the cursor runs over.
    pub closed spec fn input(&self) -> Seq<char> {
        self.queue@
    }

    /// The index of the next character to read.
    pub closed spec fn pos(&self) -> int {
        self.pos as int
    }

    /// The position lies within the input (it may equal its length).
    pub open spec fn wf(&self) -> bool {
        0 <= self.pos() <= self.input().len()
    }

    /// What is left to read.
    pub open spec fn rest(&self) -> Seq<char> {
        self.input().subrange(self.pos(), self.input().len() as int)
    }

    pub fn new(s: &str) -> (r: Self)
        ensures
            r.wf(),
            r.input() == s@,
            r.pos() == 0,
    {
        Self { queue: str_to_chars(s), pos: 0 }
    }

    /// The next character as a string, consumed; `None` at the end.
    pub fn next(&mut self) -> (r: Option<String>)
        requires
            old(self).wf(),
        ensures
            final(self).wf(),
            final(self).input() == old(self).input(),
            old(self).pos() < old(self).input().len() ==> r is Some && r->0@ == seq![
                old(self).input()[old(self).pos()],
            ] && final(self).pos() == old(self).pos() + 1,
            old(self).pos() == old(self).input().len() ==> r is None && final(self).pos()
                == old(self).pos(),
    {
        match self.next_char() {
            Some(c) => Some(char_to_string(c)),
            None => None,
        }
    }

    /// The next character, consumed; `None` at the end.
    pub fn next_char(&mut self) -> (r: Option<char>)
        requires
            old(self).wf(),
        ensures
            final(self).wf(),
            final(self).input() == old(self).input(),
            old(self).pos() < old(self).input().len() ==> r == Some(
                old(self).input()[old(self).pos()],
            ) && final(self).pos() == old(self).pos() + 1,
            old(self).pos() == old(self).input().len() ==> r is None && final(self).pos()
                == old(self).pos(),
    {
        if self.pos < self.queue.len() {
            let res = self.queue[self.pos];
            self.pos = self.pos + 1;
            Some(res)
        } else {
            None
        }
    }

    /// The next `n` characters, consumed; `None`, with nothing consumed, where
    /// fewer than `n` remain.
    pub fn next_n(&mut self, n: usize) -> (r: Option<String>)
        requires
            old(self).wf(),
        ensures
            final(self).wf(),
            final(self).input() == old(self).input(),
            old(self).pos() + n <= old(self).input().len() ==> r is Some && r->0@
                == old(self).input().subrange(old(self).pos(), old(self).pos() + n)
                && final(self).pos() == old(self).pos() + n,
            old(self).pos() + n > old(self).input().len() ==> r is None && final(self).pos()
                == old(self).pos(),
    {
        if n > self.queue.len() - self.pos {
            return None;
        }
        let res = chars_to_string(&self.queue, self.pos, self.pos + n);
        self.pos = self.pos + n;
        Some(res)
    }

    /// The characters up to the next space or tab, or to the end, consumed;
    /// `None` only where the cursor already stands at the end.
    pub fn next_until_space(&mut self) -> (r: Option<String>)
        requires
            old(self).wf(),
        ensures
            final(self).wf(),
            final(self).input() == old(self).input(),
            old(self).pos() < old(self).input().len() ==> r is Some && r->0@
                == old(self).input().subrange(
                old(self).pos(),
                word_end(old(self).input(), old(self).pos()),
            ) && final(self).pos() == word_end(old(self).input(), old(self).pos()),
            old(self).pos() == old(self).input().len() ==> r is None && final(self).pos()
                == old(self).pos(),
    {
        if self.pos == self.queue.len() {
            return None;
        }
        let start = self.pos;
        let mut p = self.pos;
        while p < self.queue.len() && self.queue[p] != ' ' && self.queue[p] != '\t'
            invariant
                start <= p <= self.queue.len(),
                word_end(self.queue@, start as int) == word_end(self.queue@, p as int),
            decreases self.queue.len() - p,
        {
            p = p + 1;
        }
        assert(word_end(self.queue@, p as int) == p as int);
        self.pos = p;
        Some(chars_to_string(&self.queue, start, self.pos))
    }

    /// The next character as a string, not consumed; `None` at the end.
    pub fn peek(&self) -> (r: Option<String>)
        requires
            self.wf(),
        ensures
            self.pos() < self.input().len() ==> r is Some && r->0@ == seq![
                self.input()[self.pos()],
            ],
            self.pos() == self.input().len() ==> r is None,
    {
        match self.peek_char() {
            Some(c) => Some(char_to_string(c)),
            None => None,
        }
    }

    /// The next character, not consumed; `None` at the end.
    pub fn peek_char(&self) -> (r: Option<char>)
        requires
            self.wf(),
        ensures
            self.pos() < self.input().len() ==> r == Some(self.input()[self.pos()]),
            self.pos() == self.input().len() ==> r is None,
    {
        if self.pos < self.queue.len() {
            Some(self.queue[self.pos])
        } else {
            None
        }
    }

    /// The next `n` characters, not consumed; `None` where fewer remain.
    pub fn peek_n(&self, n: usize) -> (r: Option<String>)
        requires
            self.wf(),
        ensures
            self.pos() + n <= self.input().len() ==> r is Some && r->0@ == self.input().subrange(
                self.pos(),
                self.pos() + n,
            ),
            self.pos() + n > self.input().len() ==> r is None,
    {
        if n > self.queue.len() - self.pos {
            return None;
        }
        Some(chars_to_string(&self.queue, self.pos, self.pos + n))
    }

    /// The number written by the run of ASCII digits at the cursor, consumed.
    /// `None`, with nothing consumed, where the cursor does not stand on a
    /// digit. A value too large for `usize` gives `usize::MAX`.
    pub fn to_usize(&mut self) -> (r: Option<usize>)
        requires
            old(self).wf(),
        ensures
            final(self).wf(),
            final(self).input() == old(self).input(),
            ({
                let s = old(self).input();
                let i = old(self).pos();
                if i < s.len() && is_digit(s[i]) {
                    r == Some(saturate(decimal_value(s.subrange(i, digits_end(s, i)))))
                        && final(self).pos() == digits_end(s, i)
                } else {
                    r is None && final(self).pos() == i
                }
            }),
    {
        if self.pos == self.queue.len() {
            return None;
        }
        let first = self.queue[self.pos];
        if !(first >= '0' && first <= '9') {
            return None;
        }
        let start = self.pos;
        let mut p = self.pos;
        let mut result: usize = 0;
        while p < self.queue.len() && self.queue[p] >= '0' && self.queue[p] <= '9'
            invariant
                start <= p <= self.queue.len(),
                digits_end(self.queue@, start as int) == digits_end(self.queue@, p as int),
                result == saturate(decimal_value(self.queue@.subrange(start as int, p as int))),
            decreases self.queue.len() - p,
        {
            let c = self.queue[p];
            let d = (c as u32 - '0' as u32) as usize;
            let ghost prev = self.queue@.subrange(start as int, p as int);
            let ghost next = self.queue@.subrange(start as int, p + 1);
            assert(next.drop_last() =~= prev);
            assert(next.last() == c);
            let ghost v = decimal_value(prev);
            assert(decimal_value(next) == v * 10 + d);
            if result <= (usize::MAX - d) / 10 {
                assert(result * 10 + d <= usize::MAX) by (nonlinear_arith)
                    requires
                        result <= (usize::MAX - d) / 10,
                        d <= 9,
                ;
                assert(v == result);
                result = result * 10 + d;
            } else {
                assert(v * 10 + d > usize::MAX) by (nonlinear_arith)
                    requires
                        result > (usize::MAX - d) / 10,
                        v >= result,
                        d <= 9,
                ;
                result = usize::MAX;
            }
            p = p + 1;
        }
        assert(digits_end(self.queue@, p as int) == p as int);
        self.pos = p;
        Some(result)
    }

    /// Moves the cursor past a run of spaces and tabs, possibly empty.
    pub fn skip_space(&mut self)
        requires
            old(self).wf(),
        ensures
            final(self).wf(),
            final(self).input() == old(self).input(),
            final(self).pos() == blank_end(old(self).input(), old(self).pos()),
    {
        let mut p = self.pos;
        while p < self.queue.len() && (self.queue[p] == ' ' || self.queue[p] == '\t')
            invariant
                old(self).pos <= p <= self.queue.len(),
                blank_end(self.queue@, old(self).pos as int) == blank_end(self.queue@, p as int),
            decreases self.queue.len() - p,
        {
            p = p + 1;
        }
        assert(blank_end(self.queue@, p as int) == p as int);
        self.pos = p;
    }

    /// The characters before the first place, from the cursor on, where `s`
    /// stands, consumed; `s` itself is left in place. `None`, with nothing
    /// consumed, where `s` stands nowhere after the cursor.
    pub fn next_until(&mut self, s: &str) -> (r: Option<String>)
        requires
            old(self).wf(),
        ensures
            final(self).wf(),
            final(self).input() == old(self).input(),
            match find_from(old(self).input(), old(self).pos(), s@) {
                Some(k) => r is Some && r->0@ == old(self).input().subrange(old(self).pos(), k)
                    && final(self).pos() == k,
                None => r is None && final(self).pos() == old(self).pos(),
            },
    {
        let d = str_to_chars(s);
        proof {
            lemma_find_from_first(self.queue@, self.pos as int, d@);
        }
        match find_chars(&self.queue, self.pos, &d) {
            Some(k) => {
                let res = chars_to_string(&self.queue, self.pos, k);
                self.pos = k;
                Some(res)
            },
            None => None,
        }
    }

} // impl Consumer

} // verus!
