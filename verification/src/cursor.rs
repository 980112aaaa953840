//! A position in the character stream, and the scans that move it.

use vstd::prelude::*;
use vstd::slice::*;

verus! {

/// The escape marker that opens every sequence.
pub const ESCAPE: char = '\x1b';

/// Whether `c` is one of the ten ASCII digits.
pub open spec fn is_digit(c: char) -> bool {
    '0' <= c && c <= '9'
}

/// How many characters at the front of `s` are digits.
pub open spec fn digits_len(s: Seq<char>) -> nat
    decreases s.len(),
{
    if s.len() > 0 && is_digit(s[0]) {
        1 + digits_len(s.drop_first())
    } else {
        0
    }
}

/// How many characters at the front of `s` differ from `stop`, counting no
/// more than `limit` of them.
pub open spec fn until_len(s: Seq<char>, stop: char, limit: nat) -> nat
    decreases s.len(),
{
    if s.len() > 0 && limit > 0 && s[0] != stop {
        1 + until_len(s.drop_first(), stop, (limit - 1) as nat)
    } else {
        0
    }
}

/// How many characters of plain text stand at the front of `s`: all of them
/// up to the first escape marker.
pub open spec fn text_len(s: Seq<char>) -> nat {
    until_len(s, ESCAPE, s.len())
}

/// How far the plain text at the front of `s` reaches, its escape marker
/// included if it has one.
pub open spec fn marker_end(s: Seq<char>) -> nat {
    if text_len(s) < s.len() {
        text_len(s) + 1
    } else {
        text_len(s)
    }
}

/// `digits_len(s)` is the one index at which the digits end.
pub proof fn lemma_digits_len(s: Seq<char>)
    ensures
        digits_len(s) <= s.len(),
        forall|i: int| 0 <= i < digits_len(s) ==> is_digit(#[trigger] s[i]),
        digits_len(s) < s.len() ==> !is_digit(s[digits_len(s) as int]),
    decreases s.len(),
{
    if s.len() > 0 && is_digit(s[0]) {
        let t = s.drop_first();
        lemma_digits_len(t);
        assert forall|i: int| 0 <= i < digits_len(s) implies is_digit(#[trigger] s[i]) by {
            if i > 0 {
                assert(s[i] == t[i - 1]);
            }
        }
        if digits_len(s) < s.len() {
            assert(s[digits_len(s) as int] == t[digits_len(t) as int]);
        }
    }
}

/// Any index with the three properties of `lemma_digits_len` is `digits_len(s)`.
pub proof fn lemma_digits_len_is(s: Seq<char>, n: int)
    requires
        0 <= n <= s.len(),
        forall|i: int| 0 <= i < n ==> is_digit(#[trigger] s[i]),
        n < s.len() ==> !is_digit(s[n]),
    ensures
        digits_len(s) == n,
    decreases s.len(),
{
    if n > 0 {
        let t = s.drop_first();
        assert(is_digit(s[0]));
        assert forall|i: int| 0 <= i < n - 1 implies is_digit(#[trigger] t[i]) by {
            assert(t[i] == s[i + 1]);
        }
        lemma_digits_len_is(t, n - 1);
    }
}

/// `until_len(s, stop, limit)` is the one index at which the scan ends.
pub proof fn lemma_until_len(s: Seq<char>, stop: char, limit: nat)
    ensures
        until_len(s, stop, limit) <= s.len(),
        until_len(s, stop, limit) <= limit,
        forall|i: int| 0 <= i < until_len(s, stop, limit) ==> #[trigger] s[i] != stop,
        until_len(s, stop, limit) < s.len() && until_len(s, stop, limit) < limit ==> s[until_len(
            s,
            stop,
            limit,
        ) as int] == stop,
    decreases s.len(),
{
    if s.len() > 0 && limit > 0 && s[0] != stop {
        let t = s.drop_first();
        let m = (limit - 1) as nat;
        lemma_until_len(t, stop, m);
        assert forall|i: int| 0 <= i < until_len(s, stop, limit) implies #[trigger] s[i]
            != stop by {
            if i > 0 {
                assert(s[i] == t[i - 1]);
            }
        }
        if until_len(s, stop, limit) < s.len() && until_len(s, stop, limit) < limit {
            assert(s[until_len(s, stop, limit) as int] == t[until_len(t, stop, m) as int]);
        }
    }
}

/// Any index with the properties of `lemma_until_len` is `until_len(s, stop, limit)`.
pub proof fn lemma_until_len_is(s: Seq<char>, stop: char, limit: nat, n: int)
    requires
        0 <= n <= s.len(),
        n <= limit,
        forall|i: int| 0 <= i < n ==> #[trigger] s[i] != stop,
        n < s.len() && n < limit ==> s[n] == stop,
    ensures
        until_len(s, stop, limit) == n,
    decreases s.len(),
{
    if n > 0 {
        let t = s.drop_first();
        assert(s[0] != stop);
        assert forall|i: int| 0 <= i < n - 1 implies #[trigger] t[i] != stop by {
            assert(t[i] == s[i + 1]);
        }
        lemma_until_len_is(t, stop, (limit - 1) as nat, n - 1);
    }
}

/// The characters that are still to be read. Reading moves the front; the
/// characters themselves are shared, so a copy of a cursor is a bookmark.
#[derive(Clone, Copy, Debug)]
pub struct Cursor<'a> {
    rest: &'a [char],
}

impl<'a> View for Cursor<'a> {
    type V = Seq<char>;

    closed spec fn view(&self) -> Seq<char> {
        self.rest@
    }
}

/// The length of the digit run at the front of `s`.
pub fn count_digits(s: &[char]) -> (n: usize)
    ensures
        n == digits_len(s@),
{
    let mut n: usize = 0;
    while n < s.len() && '0' <= s[n] && s[n] <= '9'
        invariant
            n <= s.len(),
            forall|i: int| 0 <= i < n ==> is_digit(#[trigger] s@[i]),
        decreases s.len() - n,
    {
        n += 1;
    }
    proof {
        lemma_digits_len_is(s@, n as int);
    }
    n
}

/// The length of the run at the front of `s` that is free of `stop`, cut
/// off at `limit`.
pub fn count_until(s: &[char], stop: char, limit: usize) -> (n: usize)
    ensures
        n == until_len(s@, stop, limit as nat),
{
    let mut n: usize = 0;
    while n < s.len() && n < limit && s[n] != stop
        invariant
            n <= s.len(),
            n <= limit,
            forall|i: int| 0 <= i < n ==> #[trigger] s@[i] != stop,
        decreases s.len() - n,
    {
        n += 1;
    }
    proof {
        lemma_until_len_is(s@, stop, limit as nat, n as int);
    }
    n
}

/// The characters as a string.
pub fn string_of(chars: &[char]) -> (s: String)
    ensures
        s@ == chars@,
{
    let mut s = String::new();
    let mut i: usize = 0;
    while i < chars.len()
        invariant
            i <= chars.len(),
            s@ == chars@.take(i as int),
        decreases chars.len() - i,
    {
        s.push(chars[i]);
        i += 1;
        assert(s@ =~= chars@.take(i as int));
    }
    assert(chars@.take(i as int) =~= chars@);
    s
}

impl<'a> Cursor<'a> {
    /// A cursor at the first of `chars`.
    pub fn new(chars: &'a [char]) -> (c: Self)
        ensures
            c@ == chars@,
    {
        Cursor { rest: chars }
    }

    /// Whether nothing is left to read.
    pub fn is_empty(&self) -> (b: bool)
        ensures
            b == (self@.len() == 0),
    {
        self.rest.len() == 0
    }

    /// The next character, which stays unread.
    pub fn peek(&self) -> (c: Option<char>)
        ensures
            c == (if self@.len() > 0 {
                Some(self@[0])
            } else {
                None
            }),
    {
        if self.rest.len() > 0 {
            Some(self.rest[0])
        } else {
            None
        }
    }

    /// Passes over `n` characters and returns them.
    fn take(&mut self, n: usize) -> (taken: &'a [char])
        requires
            n <= old(self)@.len(),
        ensures
            taken@ == old(self)@.take(n as int),
            final(self)@ == old(self)@.skip(n as int),
    {
        let all = self.rest;
        let taken = slice_subrange(all, 0, n);
        self.rest = slice_subrange(all, n, all.len());
        taken
    }

    /// Reads one character, if there is one.
    pub fn next(&mut self) -> (c: Option<char>)
        ensures
            old(self)@.len() == 0 ==> c.is_none() && final(self)@ == old(self)@,
            old(self)@.len() > 0 ==> c == Some(old(self)@[0]) && final(self)@ == old(self)@.skip(1),
    {
        if self.rest.len() > 0 {
            let taken = self.take(1);
            Some(taken[0])
        } else {
            None
        }
    }

    /// Reads the digits at the front.
    pub fn take_digits(&mut self) -> (digits: &'a [char])
        ensures
            digits@ == old(self)@.take(digits_len(old(self)@) as int),
            final(self)@ == old(self)@.skip(digits_len(old(self)@) as int),
    {
        let n = count_digits(self.rest);
        proof {
            lemma_digits_len(self@);
        }
        self.take(n)
    }

    /// Reads the plain text at the front and the escape marker that ends it,
    /// and returns the text.
    pub fn take_text(&mut self) -> (text: String)
        ensures
            text@ == old(self)@.take(text_len(old(self)@) as int),
            final(self)@ == old(self)@.skip(marker_end(old(self)@) as int),
    {
        proof {
            lemma_until_len(self@, ESCAPE, self@.len());
        }
        let plain = self.take_until(ESCAPE, self.rest.len());
        if self.rest.len() > 0 {
            let _ = self.take(1);
        }
        assert(self@ =~= old(self)@.skip(marker_end(old(self)@) as int));
        string_of(plain)
    }

    /// Reads up to the first `stop`, which stays unread, and no more than
    /// `limit` characters.
    pub fn take_until(&mut self, stop: char, limit: usize) -> (field: &'a [char])
        ensures
            field@ == old(self)@.take(until_len(old(self)@, stop, limit as nat) as int),
            final(self)@ == old(self)@.skip(until_len(old(self)@, stop, limit as nat) as int),
    {
        let n = count_until(self.rest, stop, limit);
        proof {
            lemma_until_len(self@, stop, limit as nat);
        }
        self.take(n)
    }
}

} // verus!
