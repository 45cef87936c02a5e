//! Redis-style glob patterns (`*`, `?`, `\x`, `[abc]`, `[!abc]`, `[^abc]`),
//! translated into regular expressions for the `regex` crate.

use vstd::prelude::*;
use crate::text::{append, chars_of, owned, push_char};

verus! {

#[verifier::external_type_specification]
#[verifier::external_body]
pub struct ExRegex(regex::Regex);

/// Whether a character has a meaning of its own in a regular expression
/// (`regex_syntax::is_meta_character`).
pub open spec fn is_meta(c: char) -> bool {
    c == '\\' || c == '.' || c == '+' || c == '*' || c == '?' || c == '(' || c == ')' || c == '|'
        || c == '[' || c == ']' || c == '{' || c == '}' || c == '^' || c == '$' || c == '#' || c
        == '&' || c == '-' || c == '~'
}

/// The text with a backslash put before each meta character: what
/// `regex::escape` returns.
pub open spec fn regex_escaped(s: Seq<char>) -> Seq<char>
    decreases s.len(),
{
    if s.len() == 0 {
        Seq::empty()
    } else {
        regex_escaped(s.drop_last()) + if is_meta(s.last()) {
            seq!['\\', s.last()]
        } else {
            seq![s.last()]
        }
    }
}

/// Whether `regex::Regex::new` accepts the given pattern.
pub uninterp spec fn regex_accepts(pattern: Seq<char>) -> bool;

/// Whether the regular expression built from `pattern` matches `text`
/// (`regex::Regex::is_match`).
pub uninterp spec fn regex_matches(pattern: Seq<char>, text: Seq<char>) -> bool;

/// Calls `regex::escape`, which puts a backslash before each meta character
/// (`regex_syntax::escape_into`).
#[verifier::external_body]
fn escape(s: &str) -> (r: String)
    ensures
        r@ == regex_escaped(s@),
{
    regex::escape(s)
}

/// Calls `regex::Regex::new`; whether it succeeds is named by
/// `regex_accepts`.
#[verifier::external_body]
fn regex_new(pattern: &str) -> (r: Option<regex::Regex>)
    ensures
        r is Some <==> regex_accepts(pattern@),
{
    regex::Regex::new(pattern).ok()
}

/// A compiled regular expression together with the pattern it was built
/// from. Only `GlobMatcher::compile` builds one.
pub struct GlobMatcher {
    re: regex::Regex,
    pattern: String,
}

impl GlobMatcher {
    /// The regular expression this matcher was compiled from.
    pub closed spec fn source(&self) -> Seq<char> {
        self.pattern@
    }

    /// Compiles the regular expression for a glob pattern; `None` where the
    /// `regex` crate refuses it.
    pub fn compile(glob: &str) -> (r: Option<GlobMatcher>)
        ensures
            r is Some <==> regex_accepts(glob_regex(glob@)),
            r matches Some(m) ==> m.source() == glob_regex(glob@),
    {
        let pattern = glob_to_regex(glob);
        match regex_new(pattern.as_str()) {
            Some(re) => Some(GlobMatcher { re, pattern }),
            None => None,
        }
    }

    /// Calls `regex::Regex::is_match` on the compiled expression; the
    /// compiled expression is the one `regex_new` built from `source()`,
    /// so the result is named by `regex_matches`.
    #[verifier::external_body]
    pub(crate) fn is_match(&self, text: &str) -> (r: bool)
        ensures
            r == regex_matches(self.source(), text@),
    {
        self.re.is_match(text)
    }
}

/// A single character, escaped for a regular expression.
pub open spec fn esc1(c: char) -> Seq<char> {
    regex_escaped(seq![c])
}

/// Reads the body of a character class from position `i`: the class text,
/// whether a closing `]` was found, and the position after it.
pub open spec fn class_scan(p: Seq<char>, i: int) -> (Seq<char>, bool, int)
    decreases p.len() - i,
{
    if i < 0 || i >= p.len() {
        (Seq::empty(), false, i)
    } else if p[i] == ']' {
        (Seq::empty(), true, i + 1)
    } else {
        let piece = if p[i] == '\\' && i + 1 < p.len() {
            esc1(p[i + 1])
        } else if p[i] == '-' {
            seq!['-']
        } else {
            esc1(p[i])
        };
        let j = if p[i] == '\\' && i + 1 < p.len() {
            i + 2
        } else {
            i + 1
        };
        let rest = class_scan(p, j);
        (piece + rest.0, rest.1, rest.2)
    }
}

pub proof fn lemma_class_scan_progress(p: Seq<char>, i: int)
    requires
        0 <= i,
    ensures
        class_scan(p, i).2 >= i,
        class_scan(p, i).2 <= p.len() || i > p.len(),
    decreases p.len() - i,
{
    if i < p.len() && p[i] != ']' {
        let j = if p[i] == '\\' && i + 1 < p.len() {
            i + 2
        } else {
            i + 1
        };
        lemma_class_scan_progress(p, j);
    }
}

/// Whether a class begins negated (`^` or `!`) at position `j`.
pub open spec fn class_negated(p: Seq<char>, j: int) -> bool {
    j < p.len() && (p[j] == '^' || p[j] == '!')
}

/// The regular expression text for the bracket that opens at position `i`,
/// and the position after it. An unclosed or empty class stands for a
/// literal `[`.
pub open spec fn bracket_piece(p: Seq<char>, i: int) -> (Seq<char>, int) {
    let j0 = i + 1;
    let neg = class_negated(p, j0);
    let j1 = if neg {
        j0 + 1
    } else {
        j0
    };
    let lead = j1 < p.len() && p[j1] == ']';
    let init = if lead {
        seq!['\\', ']']
    } else {
        Seq::empty()
    };
    let j2 = if lead {
        j1 + 1
    } else {
        j1
    };
    let scan = class_scan(p, j2);
    let class = init + scan.0;
    if scan.1 && class.len() > 0 {
        (seq!['['] + (if neg {
            seq!['^']
        } else {
            Seq::empty()
        }) + class + seq![']'], scan.2)
    } else {
        (regex_escaped(seq!['[']), i + 1)
    }
}

/// The regular expression text for the glob element at position `i`, and
/// the position after it.
pub open spec fn glob_piece(p: Seq<char>, i: int) -> (Seq<char>, int) {
    if p[i] == '*' {
        (seq!['.', '*'], i + 1)
    } else if p[i] == '?' {
        (seq!['.'], i + 1)
    } else if p[i] == '\\' {
        if i + 1 < p.len() {
            (esc1(p[i + 1]), i + 2)
        } else {
            (regex_escaped(seq!['\\']), i + 1)
        }
    } else if p[i] == '[' {
        bracket_piece(p, i)
    } else {
        (esc1(p[i]), i + 1)
    }
}

pub proof fn lemma_glob_piece_progress(p: Seq<char>, i: int)
    requires
        0 <= i < p.len(),
    ensures
        i < glob_piece(p, i).1 <= p.len(),
{
    if p[i] == '[' {
        let j0 = i + 1;
        let j1 = if class_negated(p, j0) {
            j0 + 1
        } else {
            j0
        };
        let j2 = if j1 < p.len() && p[j1] == ']' {
            j1 + 1
        } else {
            j1
        };
        lemma_class_scan_progress(p, j2);
    }
}

/// The regular expression text for the glob elements from position `i` on.
pub open spec fn glob_body(p: Seq<char>, i: int) -> Seq<char>
    decreases p.len() - i,
{
    if i < 0 || i >= p.len() {
        Seq::empty()
    } else {
        let piece = glob_piece(p, i);
        proof {
            lemma_glob_piece_progress(p, i);
        }
        piece.0 + glob_body(p, piece.1)
    }
}

/// The regular expression that a glob pattern stands for, anchored at both
/// ends; `.` matches any character, a line break too (flag `s`).
pub open spec fn glob_regex(glob: Seq<char>) -> Seq<char> {
    seq!['(', '?', 's', ')', '\\', 'A'] + glob_body(glob, 0) + seq!['\\', 'z']
}

fn escape_char(c: char) -> (r: String)
    ensures
        r@ == esc1(c),
{
    let mut s = String::new();
    push_char(&mut s, c);
    assert(s@ =~= seq![c]);
    escape(s.as_str())
}

fn scan_class(p: &Vec<char>, start: usize) -> (r: (String, bool, usize))
    requires
        start <= p@.len(),
    ensures
        r.0@ == class_scan(p@, start as int).0,
        r.1 == class_scan(p@, start as int).1,
        r.2 == class_scan(p@, start as int).2,
{
    let mut class = String::new();
    let mut idx = start;
    let n = p.len();
    while idx < n
        invariant
            n == p@.len(),
            start <= idx <= n,
            class_scan(p@, start as int).0 == class@ + class_scan(p@, idx as int).0,
            class_scan(p@, start as int).1 == class_scan(p@, idx as int).1,
            class_scan(p@, start as int).2 == class_scan(p@, idx as int).2,
        decreases n - idx,
    {
        let ch = p[idx];
        if ch == ']' {
            return (class, true, idx + 1);
        }
        let ghost before = class@;
        if ch == '\\' && idx + 1 < n {
            let e = escape_char(p[idx + 1]);
            append(&mut class, e.as_str());
            idx = idx + 2;
        } else if ch == '-' {
            push_char(&mut class, '-');
            idx = idx + 1;
        } else {
            let e = escape_char(ch);
            append(&mut class, e.as_str());
            idx = idx + 1;
        }
        proof {
            assert(before + (class@.subrange(before.len() as int, class@.len() as int)
                + class_scan(p@, idx as int).0) =~= class@ + class_scan(p@, idx as int).0);
        }
    }
    (class, false, idx)
}

/// The regular expression for a glob pattern.
pub fn glob_to_regex(glob: &str) -> (r: String)
    ensures
        r@ == glob_regex(glob@),
{
    let chars = chars_of(glob);
    let n = chars.len();
    let mut out = owned("(?s)\\A");
    assert("(?s)\\A"@ =~= seq!['(', '?', 's', ')', '\\', 'A']) by {
        reveal_strlit("(?s)\\A");
    }
    let mut idx: usize = 0;
    while idx < n
        invariant
            n == chars@.len(),
            idx <= n,
            glob_body(chars@, 0) == out@.subrange(6, out@.len() as int) + glob_body(
                chars@,
                idx as int,
            ),
            out@.len() >= 6,
            out@.subrange(0, 6) == seq!['(', '?', 's', ')', '\\', 'A'],
        decreases n - idx,
    {
        let ghost before = out@;
        proof {
            lemma_glob_piece_progress(chars@, idx as int);
        }
        let ghost piece = glob_piece(chars@, idx as int);
        let c = chars[idx];
        if c == '*' {
            push_char(&mut out, '.');
            push_char(&mut out, '*');
            idx = idx + 1;
        } else if c == '?' {
            push_char(&mut out, '.');
            idx = idx + 1;
        } else if c == '\\' {
            if idx + 1 < n {
                let e = escape_char(chars[idx + 1]);
                append(&mut out, e.as_str());
                idx = idx + 2;
            } else {
                let e = escape("\\");
                assert("\\"@ =~= seq!['\\']) by {
                    reveal_strlit("\\");
                }
                append(&mut out, e.as_str());
                idx = idx + 1;
            }
        } else if c == '[' {
            let start = idx;
            let mut j = idx + 1;
            let negated = j < n && (chars[j] == '^' || chars[j] == '!');
            if negated {
                j = j + 1;
            }
            let mut class = String::new();
            if j < n && chars[j] == ']' {
                push_char(&mut class, '\\');
                push_char(&mut class, ']');
                j = j + 1;
            }
            let (rest, closed, k) = scan_class(&chars, j);
            append(&mut class, rest.as_str());
            if closed && class.unicode_len() > 0 {
                push_char(&mut out, '[');
                if negated {
                    push_char(&mut out, '^');
                }
                append(&mut out, class.as_str());
                push_char(&mut out, ']');
                idx = k;
            } else {
                let e = escape("[");
                assert("["@ =~= seq!['[']) by {
                    reveal_strlit("[");
                }
                append(&mut out, e.as_str());
                idx = start + 1;
            }
        } else {
            let e = escape_char(c);
            append(&mut out, e.as_str());
            idx = idx + 1;
        }
        proof {
            assert(out@ =~= before + piece.0);
            assert(idx == piece.1);
            assert(out@.subrange(6, out@.len() as int) =~= before.subrange(6, before.len() as int)
                + piece.0);
        }
    }
    assert("\\z"@ =~= seq!['\\', 'z']) by {
        reveal_strlit("\\z");
    }
    let ghost body = out@.subrange(6, out@.len() as int);
    append(&mut out, "\\z");
    assert(out@ =~= glob_regex(glob@));
    out
}

/// Whether a glob character stands for itself outside a class.
pub open spec fn glob_plain(c: char) -> bool {
    c != '*' && c != '?' && c != '\\' && c != '['
}

/// Whether a character stands for itself inside a class.
pub open spec fn class_plain(c: char) -> bool {
    c != ']' && c != '\\' && c != '-'
}

/// Escaping text piece by piece escapes the whole.
pub proof fn lemma_escaped_concat(a: Seq<char>, b: Seq<char>)
    ensures
        regex_escaped(a + b) == regex_escaped(a) + regex_escaped(b),
    decreases b.len(),
{
    if b.len() == 0 {
        assert(a + b =~= a);
        assert(regex_escaped(a) + regex_escaped(b) =~= regex_escaped(a));
    } else {
        assert((a + b).drop_last() =~= a + b.drop_last());
        assert((a + b).last() == b.last());
        lemma_escaped_concat(a, b.drop_last());
        let t = if is_meta(b.last()) {
            seq!['\\', b.last()]
        } else {
            seq![b.last()]
        };
        assert(regex_escaped(a) + regex_escaped(b.drop_last()) + t =~= regex_escaped(a) + (
        regex_escaped(b.drop_last()) + t));
    }
}

/// A run of characters that stand for themselves is translated into its
/// escaped text.
pub proof fn lemma_plain_run(s: Seq<char>, i: int, k: int)
    requires
        0 <= i <= k <= s.len(),
        forall|j: int| i <= j < k ==> glob_plain(#[trigger] s[j]),
    ensures
        glob_body(s, i) == regex_escaped(s.subrange(i, k)) + glob_body(s, k),
    decreases k - i,
{
    if i == k {
        assert(s.subrange(i, k) =~= Seq::<char>::empty());
        assert(regex_escaped(Seq::<char>::empty()) == Seq::<char>::empty());
        assert(Seq::<char>::empty() + glob_body(s, k) =~= glob_body(s, k));
    } else {
        assert(glob_plain(s[i]));
        lemma_glob_piece_progress(s, i);
        assert(glob_piece(s, i) == (esc1(s[i]), i + 1));
        assert(glob_body(s, i) == esc1(s[i]) + glob_body(s, i + 1));
        lemma_plain_run(s, i + 1, k);
        assert(s.subrange(i, k) =~= seq![s[i]] + s.subrange(i + 1, k));
        lemma_escaped_concat(seq![s[i]], s.subrange(i + 1, k));
        assert(esc1(s[i]) + (regex_escaped(s.subrange(i + 1, k)) + glob_body(s, k)) =~= esc1(s[i])
            + regex_escaped(s.subrange(i + 1, k)) + glob_body(s, k));
    }
}

/// A class `[c1-c2]` after a literal prefix becomes the regular
/// expression range `[c1-c2]`, with the `-` left as the range operator: a
/// key matches it exactly where its character lies between `c1` and `c2`.
pub proof fn law_glob_class_range(prefix: Seq<char>, c1: char, c2: char)
    requires
        forall|j: int| 0 <= j < prefix.len() ==> glob_plain(#[trigger] prefix[j]),
        class_plain(c1),
        class_plain(c2),
        c1 != '^' && c1 != '!',
    ensures
        glob_regex(prefix + seq!['[', c1, '-', c2, ']']) == seq!['(', '?', 's', ')', '\\', 'A']
            + regex_escaped(prefix) + seq!['['] + esc1(c1) + seq!['-'] + esc1(c2) + seq![']'] + seq![
            '\\',
            'z',
        ],
{
    let s = prefix + seq!['[', c1, '-', c2, ']'];
    let k = prefix.len() as int;
    assert forall|j: int| 0 <= j < k implies glob_plain(#[trigger] s[j]) by {
        assert(s[j] == prefix[j]);
    }
    lemma_plain_run(s, 0, k);
    assert(s.subrange(0, k) =~= prefix);
    assert(s[k] == '[' && s[k + 1] == c1 && s[k + 2] == '-' && s[k + 3] == c2 && s[k + 4] == ']');
    assert(s.len() == k + 5);
    assert(class_scan(s, k + 4) == (Seq::<char>::empty(), true, k + 5));
    assert(class_scan(s, k + 3) == (esc1(c2) + Seq::<char>::empty(), true, k + 5));
    assert(class_scan(s, k + 2) == (seq!['-'] + (esc1(c2) + Seq::<char>::empty()), true, k + 5));
    assert(class_scan(s, k + 1) == (esc1(c1) + (seq!['-'] + (esc1(c2) + Seq::<char>::empty())), true, k + 5));
    let class = esc1(c1) + (seq!['-'] + (esc1(c2) + Seq::<char>::empty()));
    assert(!class_negated(s, k + 1));
    assert(Seq::<char>::empty() + class =~= class);
    assert(class.len() > 0);
    let piece = seq!['['] + Seq::<char>::empty() + class + seq![']'];
    assert(bracket_piece(s, k) == (piece, k + 5));
    assert(glob_piece(s, k) == (piece, k + 5));
    lemma_glob_piece_progress(s, k);
    assert(glob_body(s, k + 5) == Seq::<char>::empty());
    assert(glob_body(s, k) == piece + glob_body(s, k + 5));
    assert(glob_regex(s) =~= seq!['(', '?', 's', ')', '\\', 'A'] + regex_escaped(prefix) + seq!['[']
        + esc1(c1) + seq!['-'] + esc1(c2) + seq![']'] + seq!['\\', 'z']);
}

/// The regular expression for a literal prefix followed by more glob text.
pub proof fn lemma_prefix_regex(prefix: Seq<char>, tail: Seq<char>)
    requires
        forall|j: int| 0 <= j < prefix.len() ==> glob_plain(#[trigger] prefix[j]),
    ensures
        glob_regex(prefix + tail) == seq!['(', '?', 's', ')', '\\', 'A'] + regex_escaped(prefix)
            + glob_body(prefix + tail, prefix.len() as int) + seq!['\\', 'z'],
{
    let s = prefix + tail;
    let k = prefix.len() as int;
    assert forall|j: int| 0 <= j < k implies glob_plain(#[trigger] s[j]) by {
        assert(s[j] == prefix[j]);
    }
    lemma_plain_run(s, 0, k);
    assert(s.subrange(0, k) =~= prefix);
    assert(glob_regex(s) =~= seq!['(', '?', 's', ')', '\\', 'A'] + regex_escaped(prefix) + glob_body(s, k)
        + seq!['\\', 'z']);
}

/// `*` matches any run of characters, `?` any one character, and `\c` the
/// character `c` itself: after a literal prefix they become `.*`, `.` and
/// the escaped character.
pub proof fn law_glob_wildcards(prefix: Seq<char>, c: char)
    requires
        forall|j: int| 0 <= j < prefix.len() ==> glob_plain(#[trigger] prefix[j]),
    ensures
        glob_regex(prefix + seq!['*']) == seq!['(', '?', 's', ')', '\\', 'A'] + regex_escaped(prefix)
            + seq!['.', '*'] + seq!['\\', 'z'],
        glob_regex(prefix + seq!['?']) == seq!['(', '?', 's', ')', '\\', 'A'] + regex_escaped(prefix)
            + seq!['.'] + seq!['\\', 'z'],
        glob_regex(prefix + seq!['\\', c]) == seq!['(', '?', 's', ')', '\\', 'A'] + regex_escaped(prefix)
            + esc1(c) + seq!['\\', 'z'],
{
    let k = prefix.len() as int;
    lemma_prefix_regex(prefix, seq!['*']);
    let s1 = prefix + seq!['*'];
    assert(s1[k] == '*');
    lemma_glob_piece_progress(s1, k);
    assert(glob_body(s1, k + 1) == Seq::<char>::empty());
    assert(glob_body(s1, k) =~= seq!['.', '*']);
    lemma_prefix_regex(prefix, seq!['?']);
    let s2 = prefix + seq!['?'];
    assert(s2[k] == '?');
    lemma_glob_piece_progress(s2, k);
    assert(glob_body(s2, k + 1) == Seq::<char>::empty());
    assert(glob_body(s2, k) =~= seq!['.']);
    lemma_prefix_regex(prefix, seq!['\\', c]);
    let s3 = prefix + seq!['\\', c];
    assert(s3[k] == '\\' && s3[k + 1] == c);
    lemma_glob_piece_progress(s3, k);
    assert(glob_body(s3, k + 2) == Seq::<char>::empty());
    assert(glob_body(s3, k) =~= esc1(c));
}

/// A negated class `[!c1-c2]` (or `[^c1-c2]`) after a literal prefix
/// becomes the negated regular expression range `[^c1-c2]`: a key matches
/// it exactly where its character lies outside `c1` to `c2`.
pub proof fn law_glob_negated_range(prefix: Seq<char>, bang: char, c1: char, c2: char)
    requires
        forall|j: int| 0 <= j < prefix.len() ==> glob_plain(#[trigger] prefix[j]),
        bang == '!' || bang == '^',
        class_plain(c1),
        class_plain(c2),
    ensures
        glob_regex(prefix + seq!['[', bang, c1, '-', c2, ']']) == seq!['(', '?', 's', ')', '\\', 'A']
            + regex_escaped(prefix) + seq!['[', '^'] + esc1(c1) + seq!['-'] + esc1(c2) + seq![']'] + seq![
            '\\',
            'z',
        ],
{
    let s = prefix + seq!['[', bang, c1, '-', c2, ']'];
    let k = prefix.len() as int;
    lemma_prefix_regex(prefix, seq!['[', bang, c1, '-', c2, ']']);
    assert(s[k] == '[' && s[k + 1] == bang && s[k + 2] == c1 && s[k + 3] == '-' && s[k + 4] == c2 && s[k
        + 5] == ']');
    assert(s.len() == k + 6);
    assert(class_scan(s, k + 5) == (Seq::<char>::empty(), true, k + 6));
    assert(class_scan(s, k + 4) == (esc1(c2) + Seq::<char>::empty(), true, k + 6));
    assert(class_scan(s, k + 3) == (seq!['-'] + (esc1(c2) + Seq::<char>::empty()), true, k + 6));
    assert(class_scan(s, k + 2) == (esc1(c1) + (seq!['-'] + (esc1(c2) + Seq::<char>::empty())), true, k + 6));
    let class = esc1(c1) + (seq!['-'] + (esc1(c2) + Seq::<char>::empty()));
    assert(class_negated(s, k + 1));
    assert(Seq::<char>::empty() + class =~= class);
    assert(class.len() > 0);
    let piece = seq!['['] + seq!['^'] + class + seq![']'];
    assert(bracket_piece(s, k) == (piece, k + 6));
    assert(glob_piece(s, k) == (piece, k + 6));
    lemma_glob_piece_progress(s, k);
    assert(glob_body(s, k + 6) == Seq::<char>::empty());
    assert(glob_body(s, k) == piece + glob_body(s, k + 6));
    assert(glob_regex(s) =~= seq!['(', '?', 's', ')', '\\', 'A'] + regex_escaped(prefix) + seq!['[', '^']
        + esc1(c1) + seq!['-'] + esc1(c2) + seq![']'] + seq!['\\', 'z']);
}

} // verus!
