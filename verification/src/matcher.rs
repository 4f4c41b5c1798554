//! URL matching against `@match` / `@include` / `@exclude` patterns.
//!
//! A pattern that starts with `regex:` is a regular expression for the
//! `regex` crate; any other pattern is a Tampermonkey-style glob, which is
//! rewritten into an anchored regular expression (`*` any run of characters,
//! `?` any one character, every other character literal).
use vstd::prelude::*;
use crate::text::{chars_of, string_of};

verus! {

/// What `regex::Regex::new(pattern)` followed by `is_match(haystack)` gives:
/// `None` when the pattern does not compile, otherwise whether the compiled
/// expression matches somewhere in the haystack.
pub uninterp spec fn regex_outcome(pattern: Seq<char>, haystack: Seq<char>) -> Option<bool>;

/// Compiles `pattern` with `regex::Regex::new` and, when that succeeds, asks
/// `Regex::is_match` about `haystack`. The contract only names the outcome
/// (`regex_outcome`): it is a function of the two strings and nothing else;
/// what the regular-expression language means is not restated here.
#[verifier::external_body]
pub(crate) fn regex_match(pattern: &str, haystack: &str) -> (r: Option<bool>)
    ensures
        r == regex_outcome(pattern@, haystack@),
{
    regex::Regex::new(pattern).ok().map(|re| re.is_match(haystack))
}

/// The regular-expression text that stands for one glob character.
pub open spec fn glob_char_regex(c: char) -> Seq<char> {
    if c == '*' {
        seq!['.', '*']
    } else if c == '?' {
        seq!['.']
    } else if c == '.' || c == '+' || c == '(' || c == ')' || c == '[' || c == ']' || c == '{'
        || c == '}' || c == '^' || c == '$' || c == '\\' || c == '|' {
        seq!['\\', c]
    } else {
        seq![c]
    }
}

/// The glob characters of `p`, rewritten one by one.
pub open spec fn glob_body(p: Seq<char>) -> Seq<char>
    decreases p.len(),
{
    if p.len() == 0 {
        Seq::empty()
    } else {
        glob_body(p.drop_last()) + glob_char_regex(p.last())
    }
}

/// The anchored regular expression that a glob pattern stands for.
pub open spec fn glob_regex(p: Seq<char>) -> Seq<char> {
    seq!['^'] + glob_body(p) + seq!['$']
}

/// Whether the glob `p` accepts `url`. Should the rewritten expression not
/// compile, `.*` is used instead.
pub open spec fn glob_hit(p: Seq<char>, url: Seq<char>) -> bool {
    match regex_outcome(glob_regex(p), url) {
        Some(b) => b,
        None => regex_outcome(".*"@, url) == Some(true),
    }
}

/// The prefix that marks a pattern as a regular expression.
pub open spec fn regex_prefix() -> Seq<char> {
    "regex:"@
}

/// Whether one pattern accepts `url`: `regex:` patterns by their expression
/// (one that does not compile accepts nothing), others as globs.
pub open spec fn pattern_hit(p: Seq<char>, url: Seq<char>) -> bool {
    if p.len() >= regex_prefix().len() && p.subrange(0, regex_prefix().len() as int)
        == regex_prefix() {
        regex_outcome(p.subrange(regex_prefix().len() as int, p.len() as int), url) == Some(true)
    } else {
        glob_hit(p, url)
    }
}

/// Whether some pattern of the list accepts `url`; an empty list accepts nothing.
pub open spec fn url_matched(url: Seq<char>, patterns: Seq<Seq<char>>) -> bool {
    exists|i: int| 0 <= i < patterns.len() && pattern_hit(#[trigger] patterns[i], url)
}

fn push_glob_char(out: &mut Vec<char>, c: char)
    ensures
        final(out)@ == old(out)@ + glob_char_regex(c),
{
    if c == '*' {
        out.push('.');
        out.push('*');
    } else if c == '?' {
        out.push('.');
    } else if c == '.' || c == '+' || c == '(' || c == ')' || c == '[' || c == ']' || c == '{'
        || c == '}' || c == '^' || c == '$' || c == '\\' || c == '|' {
        out.push('\\');
        out.push(c);
    } else {
        out.push(c);
    }
    assert(final(out)@ =~= old(out)@ + glob_char_regex(c));
}

/// Rewrites a glob into the anchored regular expression that stands for it.
pub fn pattern_to_regex(pattern: &str) -> (r: String)
    ensures
        r@ == glob_regex(pattern@),
{
    let p = chars_of(pattern);
    let mut out: Vec<char> = Vec::new();
    out.push('^');
    let mut i: usize = 0;
    while i < p.len()
        invariant
            i <= p@.len(),
            out@ =~= seq!['^'] + glob_body(p@.subrange(0, i as int)),
        decreases p.len() - i,
    {
        proof {
            assert(p@.subrange(0, i + 1).drop_last() =~= p@.subrange(0, i as int));
        }
        push_glob_char(&mut out, p[i]);
        i = i + 1;
    }
    out.push('$');
    assert(p@.subrange(0, p@.len() as int) =~= p@);
    string_of(&out)
}

/// Whether the glob `pattern` accepts `url`.
pub fn glob_matches(url: &str, pattern: &str) -> (b: bool)
    ensures
        b == glob_hit(pattern@, url@),
{
    let re = pattern_to_regex(pattern);
    match regex_match(re.as_str(), url) {
        Some(b) => b,
        None => {
            let any = regex_match(".*", url);
            match any {
                Some(x) => x,
                None => false,
            }
        },
    }
}

/// Whether one pattern accepts `url`.
pub fn pattern_matches(url: &str, pattern: &String) -> (b: bool)
    ensures
        b == pattern_hit(pattern@, url@),
{
    let p = chars_of(pattern.as_str());
    let prefix = chars_of("regex:");
    if p.len() >= prefix.len() && crate::text::has_at_exec(&p, 0, &prefix) {
        let rest = crate::text::slice_chars(&p, prefix.len(), p.len());
        let rest_str = string_of(&rest);
        match regex_match(rest_str.as_str(), url) {
            Some(b) => b,
            None => false,
        }
    } else {
        glob_matches(url, pattern.as_str())
    }
}

/// Whether `url` is accepted by any of the patterns. Patterns are tried in
/// order and the first that accepts decides; an empty list accepts nothing.
pub fn is_url_matched(url: &str, patterns: &[String]) -> (b: bool)
    ensures
        b == url_matched(url@, patterns@.map_values(|p: String| p@)),
        patterns@.len() == 0 ==> !b,
{
    let ghost ps = patterns@.map_values(|p: String| p@);
    if patterns.len() == 0 {
        return false;
    }
    let mut i: usize = 0;
    while i < patterns.len()
        invariant
            i <= patterns@.len(),
            ps == patterns@.map_values(|p: String| p@),
            forall|j: int| 0 <= j < i ==> !pattern_hit(#[trigger] ps[j], url@),
        decreases patterns.len() - i,
    {
        if pattern_matches(url, &patterns[i]) {
            assert(pattern_hit(ps[i as int], url@));
            return true;
        }
        i = i + 1;
    }
    false
}


/// A list of patterns accepts a URL exactly when one of its patterns, at
/// whatever place in the list, accepts it: no pattern accepts nothing, one
/// pattern accepts what it accepts, and joining two lists accepts what
/// either accepts, so adding patterns never takes a match away.
pub proof fn lemma_any_pattern_decides(url: Seq<char>, ps: Seq<Seq<char>>, qs: Seq<Seq<char>>, p: Seq<char>)
    ensures
        !url_matched(url, Seq::empty()),
        url_matched(url, seq![p]) == pattern_hit(p, url),
        url_matched(url, ps + qs) == (url_matched(url, ps) || url_matched(url, qs)),
        url_matched(url, ps) == (exists|i: int| 0 <= i < ps.len() && pattern_hit(#[trigger] ps[i], url)),
{
    let pq = ps + qs;
    if url_matched(url, seq![p]) {
        let i = choose|i: int| 0 <= i < 1 && pattern_hit(#[trigger] seq![p][i], url);
        assert(seq![p][i] == p);
    }
    if pattern_hit(p, url) {
        assert(pattern_hit(seq![p][0], url));
    }
    if url_matched(url, pq) {
        let i = choose|i: int| 0 <= i < pq.len() && pattern_hit(#[trigger] pq[i], url);
        if i < ps.len() {
            assert(pq[i] == ps[i]);
        } else {
            assert(pq[i] == qs[i - ps.len()]);
        }
    }
    if url_matched(url, ps) {
        let i = choose|i: int| 0 <= i < ps.len() && pattern_hit(#[trigger] ps[i], url);
        assert(pq[i] == ps[i]);
    }
    if url_matched(url, qs) {
        let i = choose|i: int| 0 <= i < qs.len() && pattern_hit(#[trigger] qs[i], url);
        assert(pq[ps.len() + i] == qs[i]);
    }
}

} // verus!
