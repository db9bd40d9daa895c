//! Character-level read cursor over the source text: position-tracked access
//! with lookahead and "consume while" operations. It knows nothing of the
//! language grammar.
use vstd::prelude::*;
use crate::push_char;

verus! {

broadcast use vstd::seq::group_seq_axioms;

/// A sequential cursor over a sequence of characters.
pub struct Scanner {
    input: Vec<char>,
    pos: usize,
}

impl Scanner {
    /// The character sequence being scanned.
    pub closed spec fn text(&self) -> Seq<char> {
        self.input@
    }

    /// The current cursor position.
    pub closed spec fn at(&self) -> int {
        self.pos as int
    }

    /// The cursor never stands past the end of the text.
    pub open spec fn wf(&self) -> bool {
        0 <= self.at() <= self.text().len()
    }

    pub fn new(input: Vec<char>) -> (s: Scanner)
        ensures
            s.text() == input@,
            s.at() == 0,
            s.wf(),
    {
        Scanner { pos: 0, input }
    }

    pub fn from_str(input: &str) -> (s: Scanner)
        ensures
            s.text() == input@,
            s.at() == 0,
            s.wf(),
    {
        let n: usize = input.unicode_len();
        let mut v: Vec<char> = Vec::new();
        let mut i: usize = 0;
        while i < n
            invariant
                0 <= i <= n,
                n == input@.len(),
                v@ =~= input@.subrange(0, i as int),
            decreases n - i,
        {
            v.push(input.get_char(i));
            i += 1;
        }
        proof {
            assert(v@ =~= input@);
        }
        Scanner::new(v)
    }

    /// The character at the cursor; the cursor must not be past the end.
    pub fn current(&self) -> (c: char)
        requires
            self.at() < self.text().len(),
        ensures
            c == self.text()[self.at()],
    {
        self.input[self.pos]
    }

    /// One character of lookahead past the current one.
    pub fn next(&self) -> (c: char)
        requires
            self.at() + 1 < self.text().len(),
        ensures
            c == self.text()[self.at() + 1],
    {
        let n: usize = self.input.len();
        assert(self.pos + 1 < n);
        self.input[self.pos + 1]
    }

    /// The character just before the cursor, or `'\0'` at the start.
    pub fn prev(&self) -> (c: char)
        requires
            self.wf(),
        ensures
            c == if self.at() == 0 {
                '\0'
            } else {
                self.text()[self.at() - 1]
            },
    {
        if self.pos == 0 {
            return '\0';
        }
        self.input[self.pos - 1]
    }

    /// Returns the current character and moves the cursor one step forward,
    /// or returns nothing once the text is exhausted.
    pub fn eat(&mut self) -> (r: Option<char>)
        requires
            old(self).wf(),
        ensures
            final(self).wf(),
            final(self).text() == old(self).text(),
            old(self).at() < old(self).text().len() ==> {
                &&& r == Some(old(self).text()[old(self).at()])
                &&& final(self).at() == old(self).at() + 1
            },
            old(self).at() == old(self).text().len() ==> {
                &&& r is None
                &&& final(self).at() == old(self).at()
            },
    {
        let n: usize = self.input.len();
        if self.pos >= n {
            None
        } else {
            let c = self.input[self.pos];
            self.pos += 1;
            Some(c)
        }
    }

    /// The current position, as an index into the text.
    pub fn pos(&self) -> (p: usize)
        ensures
            p as int == self.at(),
    {
        self.pos
    }

    /// True iff a character remains to be read.
    pub fn has_next(&self) -> (r: bool)
        ensures
            r == (self.at() < self.text().len()),
    {
        self.pos < self.input.len()
    }

    /// Consumes and returns all characters up to, but not including, the next
    /// occurrence of `value` (or up to the end of the text if it never occurs).
    pub fn eat_until(&mut self, value: char) -> (ret: String)
        requires
            old(self).wf(),
        ensures
            final(self).wf(),
            final(self).text() == old(self).text(),
            old(self).at() <= final(self).at() <= final(self).text().len(),
            ret@ == final(self).text().subrange(old(self).at(), final(self).at()),
            forall|k: int|
                old(self).at() <= k < final(self).at() ==> final(self).text()[k] != value,
            final(self).at() < final(self).text().len() ==> final(self).text()[final(self).at()]
                == value,
    {
        let ghost start: int = self.at();
        let mut ret = String::new();
        loop
            invariant
                self.wf(),
                self.text() == old(self).text(),
                0 <= start <= self.at() <= self.text().len(),
                ret@ == self.text().subrange(start, self.at()),
                forall|k: int| start <= k < self.at() ==> self.text()[k] != value,
            ensures
                self.at() < self.text().len() ==> self.text()[self.at()] == value,
            decreases self.text().len() - self.at(),
        {
            if !self.has_next() || self.current() == value {
                break;
            }
            let c = self.current();
            let ghost r0: Seq<char> = ret@;
            let ghost p0: int = self.at();
            self.eat();
            push_char(&mut ret, c);
            proof {
                lemma_prefix_extend(self.text(), r0, start, p0, c);
            }
        }
        ret
    }

    /// Consumes and returns characters while `cond` keeps answering `false`,
    /// stopping before the first character for which it answers `true` (or at
    /// the end of the text).
    pub fn eat_until_cond<F: Fn(char) -> bool>(&mut self, cond: F) -> (ret: String)
        requires
            old(self).wf(),
            forall|c: char| #[trigger] call_requires(cond, (c,)),
        ensures
            final(self).wf(),
            final(self).text() == old(self).text(),
            old(self).at() <= final(self).at() <= final(self).text().len(),
            ret@ == final(self).text().subrange(old(self).at(), final(self).at()),
            forall|k: int|
                old(self).at() <= k < final(self).at() ==> call_ensures(
                    cond,
                    (final(self).text()[k],),
                    false,
                ),
            final(self).at() < final(self).text().len() ==> call_ensures(
                cond,
                (final(self).text()[final(self).at()],),
                true,
            ),
    {
        let ghost start: int = self.at();
        let mut ret = String::new();
        loop
            invariant
                self.wf(),
                self.text() == old(self).text(),
                0 <= start <= self.at() <= self.text().len(),
                ret@ == self.text().subrange(start, self.at()),
                forall|k: int|
                    start <= k < self.at() ==> call_ensures(cond, (self.text()[k],), false),
                forall|c: char| #[trigger] call_requires(cond, (c,)),
            ensures
                self.at() < self.text().len() ==> call_ensures(
                    cond,
                    (self.text()[self.at()],),
                    true,
                ),
            decreases self.text().len() - self.at(),
        {
            if !self.has_next() {
                break;
            }
            let c = self.current();
            if cond(c) {
                break;
            }
            let ghost r0: Seq<char> = ret@;
            let ghost p0: int = self.at();
            self.eat();
            push_char(&mut ret, c);
            proof {
                lemma_prefix_extend(self.text(), r0, start, p0, c);
            }
        }
        ret
    }

    /// Consumes and returns characters until the current one is any of those
    /// in `value` (or until the end of the text).
    pub fn eat_until_any(&mut self, value: Vec<char>) -> (ret: String)
        requires
            old(self).wf(),
        ensures
            final(self).wf(),
            final(self).text() == old(self).text(),
            old(self).at() <= final(self).at() <= final(self).text().len(),
            ret@ == final(self).text().subrange(old(self).at(), final(self).at()),
            forall|k: int|
                old(self).at() <= k < final(self).at() ==> !value@.contains(
                    final(self).text()[k],
                ),
            final(self).at() < final(self).text().len() ==> value@.contains(
                final(self).text()[final(self).at()],
            ),
    {
        let ghost start: int = self.at();
        let mut ret = String::new();
        loop
            invariant
                self.wf(),
                self.text() == old(self).text(),
                0 <= start <= self.at() <= self.text().len(),
                ret@ == self.text().subrange(start, self.at()),
                forall|k: int| start <= k < self.at() ==> !value@.contains(self.text()[k]),
            ensures
                self.at() < self.text().len() ==> value@.contains(self.text()[self.at()]),
            decreases self.text().len() - self.at(),
        {
            if !self.has_next() {
                break;
            }
            let c = self.current();
            if contains_char(&value, c) {
                break;
            }
            let ghost r0: Seq<char> = ret@;
            let ghost p0: int = self.at();
            self.eat();
            push_char(&mut ret, c);
            proof {
                lemma_prefix_extend(self.text(), r0, start, p0, c);
            }
        }
        ret
    }
}

/// Whether `v` holds the character `c`.
fn contains_char(v: &Vec<char>, c: char) -> (r: bool)
    ensures
        r == v@.contains(c),
{
    let mut i: usize = 0;
    while i < v.len()
        invariant
            0 <= i <= v@.len(),
            forall|k: int| 0 <= k < i ==> v@[k] != c,
        decreases v@.len() - i,
    {
        if v[i] == c {
            return true;
        }
        i += 1;
    }
    false
}

/// Extending a consumed prefix by the character at its end keeps it a prefix.
proof fn lemma_prefix_extend(s: Seq<char>, r0: Seq<char>, start: int, p0: int, c: char)
    requires
        0 <= start <= p0 < s.len(),
        r0 == s.subrange(start, p0),
        c == s[p0],
    ensures
        r0.push(c) == s.subrange(start, p0 + 1),
{
    assert(r0.push(c) =~= s.subrange(start, p0 + 1));
}

} // verus!
