//! Lexical primitives: character classes, runs of characters, and the
//! cursor through which the decoders read a line.
//!
//! All specifications speak of a line as a `Seq<char>`. A decoder is a
//! function from the text in front of it to the text it leaves behind and
//! the value it found.

use vstd::prelude::*;

verus! {

/// Space or horizontal tab: the only characters the decoders skip between
/// tokens. A line feed is never skipped.
pub open spec fn is_blank(c: char) -> bool {
    c == ' ' || c == '\t'
}

/// `[A-Za-z_]`: the characters a name may start with.
pub open spec fn is_name_start(c: char) -> bool {
    ('a' <= c && c <= 'z') || ('A' <= c && c <= 'Z') || c == '_'
}

/// `[A-Za-z0-9_]`: the characters a name is made of.
pub open spec fn is_name_char(c: char) -> bool {
    is_name_start(c) || ('0' <= c && c <= '9')
}

/// Whether a character beyond ASCII is white space: what
/// `char::is_whitespace` says of it.
pub uninterp spec fn is_wide_white_space(c: char) -> bool;

/// White space is what surrounds a line and is trimmed off it. Within ASCII
/// it is the space and the controls from horizontal tab to carriage return,
/// line feed among them; beyond ASCII it is what `char::is_whitespace` says.
pub open spec fn is_white_space(c: char) -> bool {
    if c <= '\x7f' {
        c == ' ' || ('\t' <= c && c <= '\r')
    } else {
        is_wide_white_space(c)
    }
}

/// Asks `char::is_whitespace` whether `c` is white space. The contract
/// gives the answer the name `is_wide_white_space`, and claims nothing of
/// it.
#[verifier::external_body]
fn wide_white_space(c: char) -> (b: bool)
    ensures
        b == is_wide_white_space(c),
{
    c.is_whitespace()
}

/// Tests whether `c` is white space.
pub fn white_space(c: char) -> (b: bool)
    ensures
        b == is_white_space(c),
{
    if c <= '\x7f' {
        c == ' ' || ('\t' <= c && c <= '\r')
    } else {
        wide_white_space(c)
    }
}

/// The character classes whose runs the decoders consume.
#[derive(Clone, Copy, Debug)]
pub enum CharClass {
    /// Space and horizontal tab.
    Blank,
    /// Letters, digits and the underscore.
    NameChar,
    /// White space of any kind.
    White,
}

impl CharClass {
    /// Whether `c` belongs to the class.
    pub open spec fn holds(self, c: char) -> bool {
        match self {
            CharClass::Blank => is_blank(c),
            CharClass::NameChar => is_name_char(c),
            CharClass::White => is_white_space(c),
        }
    }

    /// Tests whether `c` belongs to the class.
    pub fn contains(self, c: char) -> (b: bool)
        ensures
            b == self.holds(c),
    {
        match self {
            CharClass::Blank => c == ' ' || c == '\t',
            CharClass::NameChar => starts_name(c) || ('0' <= c && c <= '9'),
            CharClass::White => white_space(c),
        }
    }
}

/// Tests whether a name may start with `c`.
pub fn starts_name(c: char) -> (b: bool)
    ensures
        b == is_name_start(c),
{
    ('a' <= c && c <= 'z') || ('A' <= c && c <= 'Z') || c == '_'
}

/// Length of the longest prefix of `s` made of characters of `class`.
pub open spec fn run_len(class: CharClass, s: Seq<char>) -> nat
    decreases s.len(),
{
    if s.len() > 0 && class.holds(s[0]) {
        1 + run_len(class, s.drop_first())
    } else {
        0
    }
}

/// Length of the longest suffix of `s` made of characters of `class`.
pub open spec fn tail_run_len(class: CharClass, s: Seq<char>) -> nat
    decreases s.len(),
{
    if s.len() > 0 && class.holds(s.last()) {
        1 + tail_run_len(class, s.drop_last())
    } else {
        0
    }
}

/// `s` without the white space at its two ends.
pub open spec fn trimmed(s: Seq<char>) -> Seq<char> {
    let t = s.skip(run_len(CharClass::White, s) as int);
    t.take(t.len() - tail_run_len(CharClass::White, t))
}

/// `s` without its leading spaces and tabs.
pub open spec fn skip_blanks(s: Seq<char>) -> Seq<char> {
    s.skip(run_len(CharClass::Blank, s) as int)
}

/// The text after `token`, where `s` starts with it.
pub open spec fn after_token(token: Seq<char>, s: Seq<char>) -> Option<Seq<char>> {
    if token.is_prefix_of(s) {
        Some(s.skip(token.len() as int))
    } else {
        None
    }
}

/// Whether every character of `s` is a space or a tab.
pub open spec fn all_blank(s: Seq<char>) -> bool {
    forall|i: int| 0 <= i < s.len() ==> is_blank(#[trigger] s[i])
}

/// Whether every character of `s` is white space.
pub open spec fn all_white(s: Seq<char>) -> bool {
    forall|i: int| 0 <= i < s.len() ==> is_white_space(#[trigger] s[i])
}

/// A run is a prefix: it is as long as the text at most, every character in
/// it belongs to the class, and the character after it, if any, does not.
pub proof fn lemma_run_len(class: CharClass, s: Seq<char>)
    ensures
        run_len(class, s) <= s.len(),
        forall|i: int| 0 <= i < run_len(class, s) ==> class.holds(#[trigger] s[i]),
        run_len(class, s) < s.len() ==> !class.holds(s[run_len(class, s) as int]),
    decreases s.len(),
{
    if s.len() > 0 && class.holds(s[0]) {
        let t = s.drop_first();
        lemma_run_len(class, t);
        assert forall|i: int| 0 <= i < run_len(class, s) implies class.holds(#[trigger] s[i]) by {
            if i > 0 {
                assert(s[i] == t[i - 1]);
            }
        }
        if run_len(class, s) < s.len() {
            assert(s[run_len(class, s) as int] == t[run_len(class, t) as int]);
        }
    }
}

/// The prefix of length `n` is the run when it is made of characters of the
/// class and what follows it, if anything, is not of the class.
pub proof fn lemma_run_len_unique(class: CharClass, s: Seq<char>, n: nat)
    requires
        n <= s.len(),
        forall|i: int| 0 <= i < n ==> class.holds(#[trigger] s[i]),
        n < s.len() ==> !class.holds(s[n as int]),
    ensures
        run_len(class, s) == n,
    decreases n,
{
    if n > 0 {
        let t = s.drop_first();
        assert forall|i: int| 0 <= i < n - 1 implies class.holds(#[trigger] t[i]) by {
            assert(t[i] == s[i + 1]);
        }
        if n < s.len() {
            assert(t[n - 1] == s[n as int]);
        }
        lemma_run_len_unique(class, t, (n - 1) as nat);
    }
}

/// A run at the end is a suffix: it is as long as the text at most, every
/// character in it belongs to the class, and the character before it, if
/// any, does not.
pub proof fn lemma_tail_run_len(class: CharClass, s: Seq<char>)
    ensures
        tail_run_len(class, s) <= s.len(),
        forall|i: int|
            s.len() - tail_run_len(class, s) <= i < s.len() ==> class.holds(#[trigger] s[i]),
        tail_run_len(class, s) < s.len() ==> !class.holds(s[s.len() - tail_run_len(class, s) - 1]),
    decreases s.len(),
{
    if s.len() > 0 && class.holds(s.last()) {
        let t = s.drop_last();
        lemma_tail_run_len(class, t);
        assert forall|i: int| s.len() - tail_run_len(class, s) <= i < s.len() implies class.holds(
            #[trigger] s[i],
        ) by {
            if i < t.len() {
                assert(s[i] == t[i]);
            }
        }
        if tail_run_len(class, s) < s.len() {
            assert(s[s.len() - tail_run_len(class, s) - 1] == t[t.len() - tail_run_len(class, t)
                - 1]);
        }
    }
}

/// The suffix of length `n` is the run at the end when it is made of
/// characters of the class and what precedes it, if anything, is not of the
/// class.
pub proof fn lemma_tail_run_len_unique(class: CharClass, s: Seq<char>, n: nat)
    requires
        n <= s.len(),
        forall|i: int| s.len() - n <= i < s.len() ==> class.holds(#[trigger] s[i]),
        n < s.len() ==> !class.holds(s[s.len() - n - 1]),
    ensures
        tail_run_len(class, s) == n,
    decreases n,
{
    if n > 0 {
        let t = s.drop_last();
        assert forall|i: int| t.len() - (n - 1) <= i < t.len() implies class.holds(
            #[trigger] t[i],
        ) by {
            assert(t[i] == s[i]);
        }
        if n < s.len() {
            assert(t[t.len() - (n - 1) - 1] == s[s.len() - n - 1]);
        }
        lemma_tail_run_len_unique(class, t, (n - 1) as nat);
    }
}

/// Blanks in front of a text do not change what is left once they are
/// skipped.
pub proof fn lemma_skip_blanks_prepend(blanks: Seq<char>, s: Seq<char>)
    requires
        all_blank(blanks),
    ensures
        skip_blanks(blanks + s) == skip_blanks(s),
{
    let class = CharClass::Blank;
    let n = run_len(class, s);
    let joined = blanks + s;
    lemma_run_len(class, s);
    assert forall|i: int| 0 <= i < blanks.len() + n implies class.holds(#[trigger] joined[i]) by {
        if i < blanks.len() {
            assert(joined[i] == blanks[i]);
        } else {
            assert(joined[i] == s[i - blanks.len()]);
        }
    }
    if blanks.len() + n < joined.len() {
        assert(joined[(blanks.len() + n) as int] == s[n as int]);
    }
    lemma_run_len_unique(class, joined, blanks.len() + n);
    assert(joined.skip((blanks.len() + n) as int) =~= s.skip(n as int));
}

/// A trimmed text neither starts nor ends with white space.
pub proof fn lemma_trimmed_ends(s: Seq<char>)
    ensures
        trimmed(s).len() > 0 ==> !is_white_space(trimmed(s).first()) && !is_white_space(
            trimmed(s).last(),
        ),
{
    let class = CharClass::White;
    lemma_run_len(class, s);
    let t = s.skip(run_len(class, s) as int);
    lemma_tail_run_len(class, t);
    if trimmed(s).len() > 0 {
        assert(trimmed(s).first() == s[run_len(class, s) as int]);
        assert(trimmed(s).last() == t[t.len() - tail_run_len(class, t) - 1]);
    }
}

/// A text of white space only has nothing left once it is trimmed.
pub proof fn lemma_trimmed_white_space(s: Seq<char>)
    requires
        all_white(s),
    ensures
        trimmed(s).len() == 0,
{
    lemma_run_len_unique(CharClass::White, s, s.len());
}

/// White space around a text does not change what is left once the text is
/// trimmed.
pub proof fn lemma_trimmed_ignores_white_space(before: Seq<char>, s: Seq<char>, after: Seq<char>)
    requires
        all_white(before),
        all_white(after),
    ensures
        trimmed(before + s + after) == trimmed(s),
{
    let class = CharClass::White;
    let whole = before + s + after;
    let lead = run_len(class, s);
    lemma_run_len(class, s);
    if lead == s.len() {
        assert forall|i: int| 0 <= i < whole.len() implies is_white_space(#[trigger] whole[i]) by {
            if i < before.len() {
                assert(whole[i] == before[i]);
            } else if i < before.len() + s.len() {
                assert(whole[i] == s[i - before.len()]);
            } else {
                assert(whole[i] == after[i - before.len() - s.len()]);
            }
        }
        lemma_trimmed_white_space(whole);
        lemma_trimmed_white_space(s);
        assert(trimmed(whole) =~= trimmed(s));
    } else {
        let t = s.skip(lead as int);
        let end = tail_run_len(class, t);
        lemma_tail_run_len(class, t);
        assert(t[0] == s[lead as int]);
        assert forall|i: int| 0 <= i < before.len() + lead implies class.holds(
            #[trigger] whole[i],
        ) by {
            if i < before.len() {
                assert(whole[i] == before[i]);
            } else {
                assert(whole[i] == s[i - before.len()]);
            }
        }
        assert(whole[(before.len() + lead) as int] == s[lead as int]);
        lemma_run_len_unique(class, whole, before.len() + lead);
        let u = whole.skip((before.len() + lead) as int);
        assert(u =~= t + after);
        assert(end < t.len()) by {
            if end == t.len() {
                assert(class.holds(t[0]));
            }
        }
        assert forall|i: int| u.len() - (after.len() + end) <= i < u.len() implies class.holds(
            #[trigger] u[i],
        ) by {
            if i < t.len() {
                assert(u[i] == t[i]);
            } else {
                assert(u[i] == after[i - t.len()]);
            }
        }
        assert(u[u.len() - (after.len() + end) - 1] == t[t.len() - end - 1]);
        lemma_tail_run_len_unique(class, u, after.len() + end);
        assert(u.take(u.len() - (after.len() + end)) =~= t.take(t.len() - end));
    }
}

/// `String::push` puts `c` at the end of `text` and leaves what was there.
pub assume_specification[ String::push ](text: &mut String, c: char)
    ensures
        final(text)@ == old(text)@.push(c),
;

/// The characters of `text`, in order.
pub fn chars_of(text: &str) -> (chars: Vec<char>)
    ensures
        chars@ == text@,
{
    let mut chars: Vec<char> = Vec::new();
    for c in it: text.chars()
        invariant
            chars@ == it.seq().take(it.index() as int),
            it.seq() == text@,
    {
        chars.push(c);
    }
    assert(chars@ =~= text@);
    chars
}

/// A line held both as text, to cut slices from, and as characters, to read
/// by position.
pub(crate) struct Scanner<'a> {
    text: &'a str,
    chars: Vec<char>,
}

impl<'a> View for Scanner<'a> {
    type V = Seq<char>;

    closed spec fn view(&self) -> Seq<char> {
        self.text@
    }
}

impl<'a> Scanner<'a> {
    #[verifier::type_invariant]
    spec fn consistent(&self) -> bool {
        self.chars@ == self.text@
    }

    /// Reads `text` once, front to back.
    pub fn new(text: &'a str) -> (scanner: Self)
        ensures
            scanner@ == text@,
    {
        Scanner { text, chars: chars_of(text) }
    }

    /// Number of characters in the line.
    pub fn len(&self) -> (n: usize)
        ensures
            n == self@.len(),
    {
        proof {
            use_type_invariant(self);
        }
        self.chars.len()
    }

    /// The character at `pos`, if the line is that long.
    pub fn peek(&self, pos: usize) -> (c: Option<char>)
        ensures
            c == if pos < self@.len() { Some(self@[pos as int]) } else { None::<char> },
    {
        proof {
            use_type_invariant(self);
        }
        if pos < self.chars.len() {
            Some(self.chars[pos])
        } else {
            None
        }
    }

    /// Whether the character at `pos` is `c`.
    pub fn at(&self, pos: usize, c: char) -> (b: bool)
        ensures
            b == (pos < self@.len() && self@[pos as int] == c),
    {
        match self.peek(pos) {
            Some(found) => found == c,
            None => false,
        }
    }

    /// End of the run of `class` that starts at `pos`.
    pub fn run_end(&self, pos: usize, class: CharClass) -> (end: usize)
        requires
            pos <= self@.len(),
        ensures
            end == pos + run_len(class, self@.skip(pos as int)),
            pos <= end <= self@.len() <= usize::MAX,
    {
        proof {
            use_type_invariant(self);
        }
        let mut end = pos;
        while end < self.chars.len() && class.contains(self.chars[end])
            invariant
                pos <= end <= self.chars@.len(),
                self.chars@ == self@,
                forall|i: int| pos <= i < end ==> class.holds(#[trigger] self.chars@[i]),
            decreases self.chars@.len() - end,
        {
            end += 1;
        }
        proof {
            let rest = self@.skip(pos as int);
            assert forall|i: int| 0 <= i < end - pos implies class.holds(#[trigger] rest[i]) by {
                assert(rest[i] == self.chars@[pos + i]);
            }
            lemma_run_len_unique(class, rest, (end - pos) as nat);
        }
        end
    }

    /// Start of the run of `class` that ends the line, no earlier than
    /// `from`.
    pub fn tail_run_start(&self, from: usize, class: CharClass) -> (start: usize)
        requires
            from <= self@.len(),
        ensures
            start == self@.len() - tail_run_len(class, self@.skip(from as int)),
            from <= start <= self@.len(),
    {
        proof {
            use_type_invariant(self);
        }
        let mut start = self.chars.len();
        while start > from && class.contains(self.chars[start - 1])
            invariant
                from <= start <= self.chars@.len(),
                self.chars@ == self@,
                forall|i: int| start <= i < self.chars@.len() ==> class.holds(
                    #[trigger] self.chars@[i],
                ),
            decreases start,
        {
            start -= 1;
        }
        proof {
            let rest = self@.skip(from as int);
            let n = (self.chars@.len() - start) as nat;
            assert forall|i: int| rest.len() - n <= i < rest.len() implies class.holds(
                #[trigger] rest[i],
            ) by {
                assert(rest[i] == self.chars@[from + i]);
            }
            if n < rest.len() {
                assert(rest[rest.len() - n - 1] == self.chars@[start - 1]);
            }
            lemma_tail_run_len_unique(class, rest, n);
        }
        start
    }

    /// Where `token` ends if the text at `pos` starts with it.
    pub fn token_end(&self, pos: usize, token: &str) -> (end: Option<usize>)
        requires
            pos <= self@.len(),
        ensures
            end is Some <==> token@.is_prefix_of(self@.skip(pos as int)),
            end matches Some(e) ==> e == pos + token@.len() && e <= self@.len(),
    {
        proof {
            use_type_invariant(self);
        }
        let n = token.unicode_len();
        if n > self.chars.len() - pos {
            return None;
        }
        let ghost rest = self@.skip(pos as int);
        let mut i: usize = 0;
        while i < n
            invariant
                i <= n,
                n == token@.len(),
                pos + n <= self.chars@.len() <= usize::MAX,
                self.chars@ == self@,
                rest == self@.skip(pos as int),
                forall|j: int| 0 <= j < i ==> token@[j] == #[trigger] rest[j],
            decreases n - i,
        {
            if token.get_char(i) != self.chars[pos + i] {
                proof {
                    assert(rest.subrange(0, n as int)[i as int] == rest[i as int]);
                }
                return None;
            }
            i += 1;
        }
        proof {
            assert(token@ =~= rest.subrange(0, n as int));
        }
        Some(pos + n)
    }

    /// A copy of the text between two positions.
    pub fn copy(&self, from: usize, to: usize) -> (part: String)
        requires
            from <= to <= self@.len(),
        ensures
            part@ == self@.subrange(from as int, to as int),
    {
        proof {
            use_type_invariant(self);
        }
        let mut part = String::new();
        let mut at = from;
        while at < to
            invariant
                from <= at <= to <= self.chars@.len(),
                self.chars@ == self@,
                part@ == self@.subrange(from as int, at as int),
            decreases to - at,
        {
            part.push(self.chars[at]);
            at += 1;
            assert(part@ =~= self@.subrange(from as int, at as int));
        }
        part
    }

    /// The text between two positions.
    pub fn slice(&self, from: usize, to: usize) -> (part: &'a str)
        requires
            from <= to <= self@.len(),
        ensures
            part@ == self@.subrange(from as int, to as int),
    {
        self.text.substring_char(from, to)
    }

    /// The text from `from` to the end of the line.
    pub fn tail(&self, from: usize) -> (part: &'a str)
        requires
            from <= self@.len(),
        ensures
            part@ == self@.skip(from as int),
    {
        let n = self.len();
        self.text.substring_char(from, n)
    }
}

/// Removes the white space at the two ends of `input`, line feeds included.
pub fn trim(input: &str) -> (line: &str)
    ensures
        line@ == trimmed(input@),
{
    let scanner = Scanner::new(input);
    assert(scanner@.skip(0) =~= scanner@);
    let start = scanner.run_end(0, CharClass::White);
    let end = scanner.tail_run_start(start, CharClass::White);
    assert(scanner@.skip(start as int).take(end - start) =~= scanner@.subrange(
        start as int,
        end as int,
    ));
    scanner.slice(start, end)
}

/// Removes leading spaces and tabs, and nothing else.
pub fn trim_space(input: &str) -> (rest: &str)
    ensures
        rest@ == skip_blanks(input@),
{
    let scanner = Scanner::new(input);
    let start = scanner.run_end(0, CharClass::Blank);
    assert(scanner@.skip(0) =~= scanner@);
    scanner.tail(start)
}

} // verus!
