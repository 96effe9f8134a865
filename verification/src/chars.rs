//! Character classes of the shopping-list notation, runs of characters of one
//! class, and the conversions between strings and character vectors that the
//! recogniser works on.

use vstd::prelude::*;

verus! {

/// `String::push` appends one character to the end of the string; the
/// characters already in it stay as they are.
pub assume_specification[ String::push ](s: &mut String, ch: char)
    ensures
        final(s)@ == old(s)@.push(ch),
;

/// A set of characters that a run is made of.
#[derive(Clone, Copy, Debug, PartialEq, Eq, Structural)]
pub enum CharClass {
    /// The decimal digits `0` to `9`.
    Digit,
    /// What a name is made of: ASCII letters, the space and the hyphen.
    Name,
    /// What stands between the parentheses of a brand: ASCII letters and the space.
    Brand,
    /// What stands between the braces of a description: ASCII letters, digits and
    /// the space.
    Description,
    /// What stands between the brackets of a category: ASCII letters and digits.
    Category,
    /// What may separate two tokens: space, tab, line feed and carriage return.
    Separator,
    /// Every character with the Unicode property `White_Space`.
    Whitespace,
}

/// Whether `c` is one of the digits `0` to `9`.
pub open spec fn is_digit(c: char) -> bool {
    '0' <= c <= '9'
}

/// Whether `c` is one of the letters `a` to `z` and `A` to `Z`.
pub open spec fn is_letter(c: char) -> bool {
    ('a' <= c <= 'z') || ('A' <= c <= 'Z')
}

/// Whether `c` may stand between two tokens: space, tab, line feed, carriage
/// return.
pub open spec fn is_separator(c: char) -> bool {
    c == ' ' || c == '\t' || c == '\n' || c == '\r'
}

/// Whether `c` has the Unicode property `White_Space`.
pub open spec fn is_whitespace(c: char) -> bool {
    ||| ('\u{0009}' <= c <= '\u{000D}')
    ||| c == '\u{0020}'
    ||| c == '\u{0085}'
    ||| c == '\u{00A0}'
    ||| c == '\u{1680}'
    ||| ('\u{2000}' <= c <= '\u{200A}')
    ||| c == '\u{2028}'
    ||| c == '\u{2029}'
    ||| c == '\u{202F}'
    ||| c == '\u{205F}'
    ||| c == '\u{3000}'
}

impl CharClass {
    /// Whether `c` belongs to the class.
    pub open spec fn contains(self, c: char) -> bool {
        match self {
            CharClass::Digit => is_digit(c),
            CharClass::Name => is_letter(c) || c == ' ' || c == '-',
            CharClass::Brand => is_letter(c) || c == ' ',
            CharClass::Description => is_letter(c) || is_digit(c) || c == ' ',
            CharClass::Category => is_letter(c) || is_digit(c),
            CharClass::Separator => is_separator(c),
            CharClass::Whitespace => is_whitespace(c),
        }
    }

    /// Tests whether `c` belongs to the class.
    pub fn accepts(&self, c: char) -> (b: bool)
        ensures
            b == self.contains(c),
    {
        let letter = ('a' <= c && c <= 'z') || ('A' <= c && c <= 'Z');
        let digit = '0' <= c && c <= '9';
        match self {
            CharClass::Digit => digit,
            CharClass::Name => letter || c == ' ' || c == '-',
            CharClass::Brand => letter || c == ' ',
            CharClass::Description => letter || digit || c == ' ',
            CharClass::Category => letter || digit,
            CharClass::Separator => c == ' ' || c == '\t' || c == '\n' || c == '\r',
            CharClass::Whitespace => {
                ('\u{0009}' <= c && c <= '\u{000D}') || c == '\u{0020}' || c == '\u{0085}'
                    || c == '\u{00A0}' || c == '\u{1680}' || ('\u{2000}' <= c && c <= '\u{200A}')
                    || c == '\u{2028}' || c == '\u{2029}' || c == '\u{202F}' || c == '\u{205F}'
                    || c == '\u{3000}'
            },
        }
    }
}

/// Where the longest run of characters of `class` that starts at `pos` ends:
/// the first position from `pos` on that holds no character of the class.
pub open spec fn run_end(s: Seq<char>, pos: int, class: CharClass) -> int
    decreases s.len() - pos,
{
    if 0 <= pos < s.len() && class.contains(s[pos]) {
        run_end(s, pos + 1, class)
    } else {
        pos
    }
}

/// Whether every character of `s` belongs to `class`.
pub open spec fn all_in(s: Seq<char>, class: CharClass) -> bool {
    forall|i: int| 0 <= i < s.len() ==> class.contains(#[trigger] s[i])
}

/// `run_end` is the one position `e` from `pos` on with only characters of the
/// class in front of it and none at it.
pub proof fn lemma_run_end(s: Seq<char>, pos: int, class: CharClass)
    requires
        0 <= pos <= s.len(),
    ensures
        pos <= run_end(s, pos, class) <= s.len(),
        all_in(s.subrange(pos, run_end(s, pos, class)), class),
        run_end(s, pos, class) < s.len() ==> !class.contains(s[run_end(s, pos, class)]),
    decreases s.len() - pos,
{
    if pos < s.len() && class.contains(s[pos]) {
        lemma_run_end(s, pos + 1, class);
        let e = run_end(s, pos, class);
        assert forall|i: int| 0 <= i < e - pos implies class.contains(
            #[trigger] s.subrange(pos, e)[i],
        ) by {
            if i > 0 {
                assert(s.subrange(pos, e)[i] == s.subrange(pos + 1, e)[i - 1]);
            }
        }
    }
}

/// A position that satisfies the three properties of `lemma_run_end` is `run_end`.
pub proof fn lemma_run_end_unique(s: Seq<char>, pos: int, class: CharClass, e: int)
    requires
        0 <= pos <= e <= s.len(),
        forall|i: int| pos <= i < e ==> class.contains(#[trigger] s[i]),
        e < s.len() ==> !class.contains(s[e]),
    ensures
        run_end(s, pos, class) == e,
    decreases e - pos,
{
    if pos < e {
        lemma_run_end_unique(s, pos + 1, class, e);
    }
}

/// Finds the end of the run of `class` that starts at `pos`.
pub fn scan_run(chars: &Vec<char>, pos: usize, class: CharClass) -> (end: usize)
    requires
        pos <= chars.len(),
    ensures
        end == run_end(chars@, pos as int, class),
        pos <= end <= chars.len(),
{
    let mut end: usize = pos;
    while end < chars.len() && class.accepts(chars[end])
        invariant
            pos <= end <= chars.len(),
            run_end(chars@, pos as int, class) == run_end(chars@, end as int, class),
        decreases chars.len() - end,
    {
        end = end + 1;
    }
    end
}

/// `s` without the whitespace at its end.
pub open spec fn trim_end(s: Seq<char>) -> Seq<char>
    decreases s.len(),
{
    if s.len() > 0 && is_whitespace(s.last()) {
        trim_end(s.drop_last())
    } else {
        s
    }
}

/// `s` without the whitespace at its start.
pub open spec fn trim_start(s: Seq<char>) -> Seq<char> {
    s.skip(run_end(s, 0, CharClass::Whitespace))
}

/// `s` without the whitespace at its start and at its end.
pub open spec fn trim(s: Seq<char>) -> Seq<char> {
    trim_start(trim_end(s))
}

/// Where in `s` the piece starts that trimming keeps.
pub open spec fn trim_from(s: Seq<char>) -> int {
    run_end(trim_end(s), 0, CharClass::Whitespace)
}

/// Where in `s` the piece ends that trimming keeps.
pub open spec fn trim_to(s: Seq<char>) -> int {
    trim_end(s).len() as int
}

/// `trim_end` keeps a prefix, cuts off only whitespace and leaves none at the end.
pub proof fn lemma_trim_end(s: Seq<char>)
    ensures
        trim_end(s).len() <= s.len(),
        trim_end(s) == s.subrange(0, trim_end(s).len() as int),
        all_in(s.subrange(trim_end(s).len() as int, s.len() as int), CharClass::Whitespace),
        trim_end(s).len() > 0 ==> !is_whitespace(trim_end(s).last()),
    decreases s.len(),
{
    if s.len() > 0 && is_whitespace(s.last()) {
        let d = s.drop_last();
        lemma_trim_end(d);
        let n = trim_end(s).len() as int;
        assert(trim_end(s) =~= s.subrange(0, n));
        assert forall|i: int| 0 <= i < s.len() - n implies CharClass::Whitespace.contains(
            #[trigger] s.subrange(n, s.len() as int)[i],
        ) by {
            if i < d.len() - n {
                assert(s.subrange(n, s.len() as int)[i] == d.subrange(n, d.len() as int)[i]);
            }
        }
    } else {
        assert(trim_end(s) =~= s.subrange(0, s.len() as int));
    }
}

/// Trimming takes a piece out of the middle: what is cut off on both sides is
/// whitespace, and what stays neither starts nor ends with whitespace.
pub proof fn lemma_trim(s: Seq<char>)
    ensures
        0 <= trim_from(s) <= trim_to(s) <= s.len(),
        trim(s) == s.subrange(trim_from(s), trim_to(s)),
        all_in(s.subrange(0, trim_from(s)), CharClass::Whitespace),
        all_in(s.subrange(trim_to(s), s.len() as int), CharClass::Whitespace),
        trim(s).len() > 0 ==> !is_whitespace(trim(s).first()) && !is_whitespace(trim(s).last()),
{
    lemma_trim_end(s);
    let kept = trim_end(s);
    lemma_run_end(kept, 0, CharClass::Whitespace);
    let from = trim_from(s);
    let r = trim(s);
    assert(r =~= s.subrange(from, trim_to(s)));
    assert(s.subrange(0, from) =~= kept.subrange(0, from));
    if r.len() > 0 {
        assert(r.first() == kept[from]);
        assert(r.last() == kept.last());
    }
}

/// Trimming changes nothing in a text that neither starts nor ends with
/// whitespace.
pub proof fn lemma_trim_nothing(s: Seq<char>)
    requires
        s.len() > 0,
        !is_whitespace(s.first()),
        !is_whitespace(s.last()),
    ensures
        trim(s) == s,
{
    assert(trim_end(s) == s);
    assert(run_end(s, 0, CharClass::Whitespace) == 0);
    assert(s.skip(0) =~= s);
}

/// Trimming leaves something of a text that holds more than whitespace.
pub proof fn lemma_trim_something(s: Seq<char>, i: int)
    requires
        0 <= i < s.len(),
        !is_whitespace(s[i]),
    ensures
        trim(s).len() > 0,
{
    lemma_trim(s);
    if trim(s).len() == 0 {
        let from = trim_from(s);
        if i < from {
            assert(s.subrange(0, from)[i] == s[i]);
        } else {
            assert(s.subrange(from, s.len() as int)[i - from] == s[i]);
        }
    }
}

/// A run that is entered in its middle ends where it ends.
pub proof fn lemma_run_end_inside(s: Seq<char>, pos: int, class: CharClass, at: int)
    requires
        0 <= pos <= at <= run_end(s, pos, class),
        pos <= s.len(),
    ensures
        run_end(s, at, class) == run_end(s, pos, class),
{
    lemma_run_end(s, pos, class);
    let end = run_end(s, pos, class);
    assert forall|i: int| at <= i < end implies class.contains(#[trigger] s[i]) by {
        assert(s.subrange(pos, end)[i - pos] == s[i]);
    }
    lemma_run_end_unique(s, at, class, end);
}

/// Finds the piece of `chars` that trimming keeps.
pub fn trim_bounds(chars: &Vec<char>) -> (bounds: (usize, usize))
    ensures
        bounds.0 == trim_from(chars@),
        bounds.1 == trim_to(chars@),
        bounds.0 <= bounds.1 <= chars.len(),
        chars@.subrange(bounds.0 as int, bounds.1 as int) == trim(chars@),
{
    let mut to: usize = chars.len();
    assert(chars@.subrange(0, to as int) =~= chars@);
    while to > 0 && CharClass::Whitespace.accepts(chars[to - 1])
        invariant
            to <= chars.len(),
            trim_end(chars@) == trim_end(chars@.subrange(0, to as int)),
        decreases to,
    {
        proof {
            let t = chars@.subrange(0, to as int);
            assert(t.drop_last() =~= chars@.subrange(0, to - 1));
        }
        to = to - 1;
    }
    let mut from: usize = 0;
    let ghost kept = chars@.subrange(0, to as int);
    assert(trim_end(chars@) == kept);
    while from < to && CharClass::Whitespace.accepts(chars[from])
        invariant
            from <= to <= chars.len(),
            kept == chars@.subrange(0, to as int),
            run_end(kept, 0, CharClass::Whitespace) == run_end(
                kept,
                from as int,
                CharClass::Whitespace,
            ),
        decreases to - from,
    {
        from = from + 1;
    }
    proof {
        assert(kept.skip(from as int) =~= chars@.subrange(from as int, to as int));
    }
    (from, to)
}

/// The characters of a string, in order.
pub fn chars_of(s: &str) -> (v: Vec<char>)
    ensures
        v@ == s@,
{
    let mut v: Vec<char> = Vec::new();
    for c in it: s.chars()
        invariant
            v@ == it.seq().take(it.index()),
    {
        v.push(c);
    }
    v
}

/// The string made of the characters of `chars` from `from` up to `to`.
pub fn text_of(chars: &Vec<char>, from: usize, to: usize) -> (s: String)
    requires
        from <= to <= chars.len(),
    ensures
        s@ == chars@.subrange(from as int, to as int),
{
    let mut s = String::new();
    let mut i: usize = from;
    while i < to
        invariant
            from <= i <= to <= chars.len(),
            s@ == chars@.subrange(from as int, i as int),
        decreases to - i,
    {
        s.push(chars[i]);
        i = i + 1;
    }
    s
}

} // verus!
