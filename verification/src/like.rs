//! SQL-`LIKE` pattern matching, the mechanism behind prefix deletion and the
//! crate-priority lookup.
//!
//! A pattern is a sequence of characters in which `%` matches any run of
//! characters, `_` matches exactly one character, and a backslash escapes the
//! following character so it is matched literally.  Prefix deletion never
//! passes a caller's string into a pattern unescaped: the pattern for a
//! prefix is the prefix with every metacharacter escaped, followed by one
//! `%`.  The lemma at the end shows that such a pattern matches exactly the
//! strings that start with the literal prefix.

use crate::text::chars_of;
use vstd::prelude::*;

verus! {

/// What a `LIKE` pattern means.
pub open spec fn like_matches(pat: Seq<char>, s: Seq<char>) -> bool
    decreases pat.len() + s.len(),
{
    if pat.len() == 0 {
        s.len() == 0
    } else if pat[0] == '%' {
        like_matches(pat.skip(1), s) || (s.len() > 0 && like_matches(pat, s.skip(1)))
    } else if pat[0] == '_' {
        s.len() > 0 && like_matches(pat.skip(1), s.skip(1))
    } else if pat[0] == '\\' {
        pat.len() >= 2 && s.len() > 0 && s[0] == pat[1] && like_matches(pat.skip(2), s.skip(1))
    } else {
        s.len() > 0 && s[0] == pat[0] && like_matches(pat.skip(1), s.skip(1))
    }
}

/// The characters that `LIKE` does not take literally.
pub open spec fn is_like_meta(c: char) -> bool {
    c == '%' || c == '_' || c == '\\'
}

/// A character sequence with every metacharacter escaped.
pub open spec fn escape_like(p: Seq<char>) -> Seq<char>
    decreases p.len(),
{
    if p.len() == 0 {
        Seq::<char>::empty()
    } else if is_like_meta(p[0]) {
        seq!['\\', p[0]] + escape_like(p.skip(1))
    } else {
        seq![p[0]] + escape_like(p.skip(1))
    }
}

/// The pattern that prefix deletion runs for a literal prefix.
pub open spec fn prefix_pattern(p: Seq<char>) -> Seq<char> {
    escape_like(p) + seq!['%']
}

/// `p` is a literal prefix of `s`.
pub open spec fn is_prefix_of(p: Seq<char>, s: Seq<char>) -> bool {
    p.len() <= s.len() && s.subrange(0, p.len() as int) == p
}

fn like_match_at(pat: &Vec<char>, s: &Vec<char>, pi: usize, si: usize) -> (r: bool)
    requires
        pi <= pat.len(),
        si <= s.len(),
    ensures
        r == like_matches(pat@.skip(pi as int), s@.skip(si as int)),
    decreases pat.len() - pi + s.len() - si,
{
    let ghost pseq = pat@.skip(pi as int);
    let ghost sseq = s@.skip(si as int);
    if pi == pat.len() {
        assert(pseq.len() == 0);
        si == s.len()
    } else {
        let c = pat[pi];
        assert(pseq[0] == pat@[pi as int]);
        assert(pseq.skip(1) =~= pat@.skip((pi + 1) as int));
        if c == '%' {
            if like_match_at(pat, s, pi + 1, si) {
                true
            } else if si < s.len() {
                assert(sseq.skip(1) =~= s@.skip((si + 1) as int));
                like_match_at(pat, s, pi, si + 1)
            } else {
                false
            }
        } else if c == '_' {
            if si < s.len() {
                assert(sseq.skip(1) =~= s@.skip((si + 1) as int));
                like_match_at(pat, s, pi + 1, si + 1)
            } else {
                false
            }
        } else if c == '\\' {
            if pi + 1 < pat.len() && si < s.len() {
                assert(pseq[1] == pat@[(pi + 1) as int]);
                if s[si] == pat[pi + 1] {
                    assert(pseq.skip(2) =~= pat@.skip((pi + 2) as int));
                    assert(sseq.skip(1) =~= s@.skip((si + 1) as int));
                    like_match_at(pat, s, pi + 2, si + 1)
                } else {
                    false
                }
            } else {
                false
            }
        } else {
            if si < s.len() {
                if s[si] == c {
                    assert(sseq.skip(1) =~= s@.skip((si + 1) as int));
                    like_match_at(pat, s, pi + 1, si + 1)
                } else {
                    false
                }
            } else {
                false
            }
        }
    }
}

/// Whether `s` matches the pattern `pat`.
pub fn like_match(pat: &Vec<char>, s: &Vec<char>) -> (r: bool)
    ensures
        r == like_matches(pat@, s@),
{
    assert(pat@.skip(0) =~= pat@);
    assert(s@.skip(0) =~= s@);
    like_match_at(pat, s, 0, 0)
}

/// Whether the string `s` matches the pattern `pat`.
pub fn str_like_match(pat: &str, s: &str) -> (r: bool)
    ensures
        r == like_matches(pat@, s@),
{
    let pv = chars_of(pat);
    let sv = chars_of(s);
    like_match(&pv, &sv)
}

/// The pattern for a literal prefix: the prefix escaped, then `%`.
pub fn build_prefix_pattern(p: &str) -> (r: Vec<char>)
    ensures
        r@ == prefix_pattern(p@),
{
    let pv = chars_of(p);
    let n = pv.len();
    let mut r: Vec<char> = Vec::new();
    let mut i: usize = 0;
    assert(p@.subrange(0, 0) =~= Seq::<char>::empty());
    assert(escape_like(p@.subrange(0, 0)) =~= Seq::<char>::empty());
    while i < n
        invariant
            i <= n,
            n == p@.len(),
            pv@ == p@,
            r@ == escape_like(p@.subrange(0, i as int)),
        decreases n - i,
    {
        let c = pv[i];
        if c == '%' || c == '_' || c == '\\' {
            r.push('\\');
            r.push(c);
        } else {
            r.push(c);
        }
        proof {
            let pre = p@.subrange(0, i as int);
            let post = p@.subrange(0, (i + 1) as int);
            lemma_escape_like_append(pre, seq![p@[i as int]]);
            assert(post =~= pre + seq![p@[i as int]]);
            let single = seq![p@[i as int]];
            assert(single[0] == p@[i as int]);
            assert(single.skip(1) =~= Seq::<char>::empty());
            assert(escape_like(Seq::<char>::empty()) =~= Seq::<char>::empty());
            if is_like_meta(p@[i as int]) {
                assert(escape_like(single) =~= seq!['\\', p@[i as int]]);
            } else {
                assert(escape_like(single) =~= seq![p@[i as int]]);
            }
            assert(r@ =~= escape_like(pre) + escape_like(single));
        }
        i += 1;
    }
    assert(p@.subrange(0, n as int) =~= p@);
    r.push('%');
    assert(r@ =~= prefix_pattern(p@));
    r
}

/// Escaping distributes over concatenation.
proof fn lemma_escape_like_append(a: Seq<char>, b: Seq<char>)
    ensures
        escape_like(a + b) == escape_like(a) + escape_like(b),
    decreases a.len(),
{
    if a.len() == 0 {
        assert(a + b =~= b);
        assert(escape_like(a) =~= Seq::<char>::empty());
        assert(escape_like(a) + escape_like(b) =~= escape_like(b));
    } else {
        assert((a + b).skip(1) =~= a.skip(1) + b);
        assert((a + b)[0] == a[0]);
        lemma_escape_like_append(a.skip(1), b);
        if is_like_meta(a[0]) {
            assert(escape_like(a + b) =~= seq!['\\', a[0]] + (escape_like(a.skip(1)) + escape_like(
                b,
            )));
            assert(escape_like(a) + escape_like(b) =~= seq!['\\', a[0]] + (escape_like(a.skip(1))
                + escape_like(b)));
        } else {
            assert(escape_like(a + b) =~= seq![a[0]] + (escape_like(a.skip(1)) + escape_like(b)));
            assert(escape_like(a) + escape_like(b) =~= seq![a[0]] + (escape_like(a.skip(1))
                + escape_like(b)));
        }
    }
}

/// A single `%` matches every string.
proof fn lemma_percent_matches_all(s: Seq<char>)
    ensures
        like_matches(seq!['%'], s),
    decreases s.len(),
{
    let pat = seq!['%'];
    assert(pat[0] == '%');
    if s.len() == 0 {
        assert(pat.skip(1) =~= Seq::<char>::empty());
        assert(like_matches(pat.skip(1), s));
    } else {
        lemma_percent_matches_all(s.skip(1));
    }
}

/// A prefix shrinks with its string: for non-empty sequences, being a prefix
/// means agreeing on the head and being a prefix one step in.
proof fn lemma_prefix_cons(p: Seq<char>, s: Seq<char>)
    requires
        p.len() > 0,
        s.len() > 0,
    ensures
        is_prefix_of(p, s) <==> (s[0] == p[0] && is_prefix_of(p.skip(1), s.skip(1))),
{
    if is_prefix_of(p, s) {
        assert(s.subrange(0, p.len() as int)[0] == s[0]);
        assert forall|j: int|
            0 <= j < p.len() - 1 implies s.skip(1).subrange(0, p.len() - 1)[j] == p.skip(
            1,
        )[j] by {
            assert(s.subrange(0, p.len() as int)[j + 1] == s[j + 1]);
            assert(s.skip(1).subrange(0, p.len() - 1)[j] == s[j + 1]);
            assert(p.skip(1)[j] == p[j + 1]);
        }
        assert(s.skip(1).subrange(0, p.len() - 1) =~= p.skip(1));
    }
    if s[0] == p[0] && is_prefix_of(p.skip(1), s.skip(1)) {
        assert forall|j: int|
            0 <= j < p.len() implies s.subrange(0, p.len() as int)[j] == p[j] by {
            if j >= 1 {
                assert(s.skip(1).subrange(0, p.len() - 1)[j - 1] == p.skip(1)[j - 1]);
                assert(s.skip(1)[j - 1] == s[j]);
                assert(p.skip(1)[j - 1] == p[j]);
            }
        }
        assert(s.subrange(0, p.len() as int) =~= p);
    }
}

/// The prefix pattern for `p` matches exactly the strings that start with
/// the literal `p`: escaping keeps every metacharacter of the prefix
/// literal, and the trailing `%` frees the rest of the string.
pub proof fn lemma_prefix_pattern_matches(p: Seq<char>, s: Seq<char>)
    ensures
        like_matches(prefix_pattern(p), s) <==> is_prefix_of(p, s),
    decreases p.len(),
{
    let pat = prefix_pattern(p);
    if p.len() == 0 {
        assert(escape_like(p) =~= Seq::<char>::empty());
        assert(pat =~= seq!['%']);
        lemma_percent_matches_all(s);
        assert(s.subrange(0, 0) =~= p);
    } else {
        let rest = prefix_pattern(p.skip(1));
        if is_like_meta(p[0]) {
            assert(escape_like(p) == seq!['\\', p[0]] + escape_like(p.skip(1)));
            assert(pat =~= seq!['\\', p[0]] + rest);
            assert(pat[0] == '\\');
            assert(pat[1] == p[0]);
            assert(pat.skip(2) =~= rest);
            assert(pat.len() >= 2);
            if s.len() > 0 && s[0] == p[0] {
                lemma_prefix_pattern_matches(p.skip(1), s.skip(1));
                lemma_prefix_cons(p, s);
            } else {
                assert(!like_matches(pat, s));
                assert(!is_prefix_of(p, s)) by {
                    if is_prefix_of(p, s) {
                        assert(s.subrange(0, p.len() as int)[0] == s[0]);
                    }
                }
            }
        } else {
            assert(escape_like(p) == seq![p[0]] + escape_like(p.skip(1)));
            assert(pat =~= seq![p[0]] + rest);
            assert(pat[0] == p[0]);
            assert(pat.skip(1) =~= rest);
            assert(!is_like_meta(pat[0]));
            if s.len() > 0 && s[0] == p[0] {
                lemma_prefix_pattern_matches(p.skip(1), s.skip(1));
                lemma_prefix_cons(p, s);
            } else {
                assert(!like_matches(pat, s));
                assert(!is_prefix_of(p, s)) by {
                    if is_prefix_of(p, s) {
                        assert(s.subrange(0, p.len() as int)[0] == s[0]);
                    }
                }
            }
        }
    }
}

} // verus!
