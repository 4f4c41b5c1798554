//! Windows line endings: a script whose lines end in CR LF parses like the
//! same script with LF endings.
use vstd::prelude::*;
use crate::models::ScriptSpec;
use crate::parser::{
    lemma_first_marker_bounds,
    close_marker, entries, first_marker, header_span, header_block, header_entries, marker_end,
    open_marker, parsed_script, script_code, slashes,
};
use crate::text::{lemma_skip_ws_bounds, back_ws, has_at, is_ws, lines, skip_ws, strip_cr, trim, trim_range, first_newline};

verus! {

/// How a character is written with Windows line endings.
pub open spec fn crlf_char(c: char) -> Seq<char> {
    if c == '\n' {
        seq!['\r', '\n']
    } else {
        seq![c]
    }
}

/// The text with every `\n` written as `\r\n`.
pub open spec fn crlf(s: Seq<char>) -> Seq<char>
    decreases s.len(),
{
    if s.len() == 0 {
        Seq::empty()
    } else {
        crlf(s.drop_last()) + crlf_char(s.last())
    }
}

/// Where position `i` of `s` lands in `crlf(s)`.
pub open spec fn pos(s: Seq<char>, i: int) -> int {
    crlf(s.subrange(0, i)).len() as int
}

/// The text holds no `\r`.
pub open spec fn no_cr(s: Seq<char>) -> bool {
    forall|i: int| 0 <= i < s.len() ==> s[i] != '\r'
}

proof fn lemma_crlf_concat(x: Seq<char>, y: Seq<char>)
    ensures
        crlf(x + y) == crlf(x) + crlf(y),
    decreases y.len(),
{
    if y.len() == 0 {
        assert(x + y =~= x);
        assert(crlf(x) + crlf(y) =~= crlf(x));
    } else {
        assert((x + y).drop_last() =~= x + y.drop_last());
        lemma_crlf_concat(x, y.drop_last());
        assert(crlf(x + y) =~= crlf(x) + crlf(y));
    }
}

proof fn lemma_pos(s: Seq<char>, a: int, b: int)
    requires
        0 <= a <= b <= s.len(),
    ensures
        pos(s, a) <= pos(s, b) <= crlf(s).len(),
        crlf(s).subrange(pos(s, a), pos(s, b)) == crlf(s.subrange(a, b)),
        pos(s, s.len() as int) == crlf(s).len(),
{
    let c = crlf(s);
    assert(s.subrange(0, b) =~= s.subrange(0, a) + s.subrange(a, b));
    assert(s =~= s.subrange(0, b) + s.subrange(b, s.len() as int));
    lemma_crlf_concat(s.subrange(0, a), s.subrange(a, b));
    lemma_crlf_concat(s.subrange(0, b), s.subrange(b, s.len() as int));
    assert(s.subrange(0, s.len() as int) =~= s);
    assert(c.subrange(pos(s, a), pos(s, b)) =~= crlf(s.subrange(a, b)));
}

proof fn lemma_crlf_one(c: char)
    ensures
        crlf(seq![c]) == crlf_char(c),
{
    let one = seq![c];
    assert(one.drop_last() =~= Seq::<char>::empty());
    assert(one.last() == c);
    assert(crlf(Seq::<char>::empty()) == Seq::<char>::empty());
    assert(crlf(one) == crlf(one.drop_last()) + crlf_char(one.last()));
    assert(crlf(one) =~= crlf_char(c));
}

proof fn lemma_pos_step(s: Seq<char>, i: int)
    requires
        0 <= i < s.len(),
    ensures
        pos(s, i + 1) == pos(s, i) + crlf_char(s[i]).len(),
        pos(s, i + 1) <= crlf(s).len(),
        s[i] != '\n' ==> crlf(s)[pos(s, i)] == s[i],
        s[i] == '\n' ==> crlf(s)[pos(s, i)] == '\r' && crlf(s)[pos(s, i) + 1] == '\n',
{
    lemma_pos(s, i, i + 1);
    assert(s.subrange(i, i + 1) =~= seq![s[i]]);
    lemma_crlf_one(s[i]);
    let c = crlf(s);
    assert(c.subrange(pos(s, i), pos(s, i + 1)) == crlf_char(s[i]));
    if s[i] == '\n' {
        assert(c[pos(s, i)] == c.subrange(pos(s, i), pos(s, i + 1))[0]);
        assert(c[pos(s, i) + 1] == c.subrange(pos(s, i), pos(s, i + 1))[1]);
    } else {
        assert(c[pos(s, i)] == c.subrange(pos(s, i), pos(s, i + 1))[0]);
    }
}

proof fn lemma_pos_mono(s: Seq<char>, a: int, b: int)
    requires
        0 <= a < b <= s.len(),
    ensures
        pos(s, a) < pos(s, b),
{
    lemma_pos_step(s, a);
    lemma_pos(s, a + 1, b);
}

proof fn lemma_skip_ws_crlf(s: Seq<char>, i: int, hi: int)
    requires
        0 <= i <= hi <= s.len(),
    ensures
        skip_ws(crlf(s), pos(s, i), pos(s, hi)) == pos(s, skip_ws(s, i, hi)),
    decreases hi - i,
{
    let c = crlf(s);
    lemma_pos(s, i, hi);
    lemma_pos(s, hi, s.len() as int);
    if i < hi {
        lemma_pos_step(s, i);
        lemma_pos(s, i + 1, hi);
        if is_ws(s[i]) {
            lemma_skip_ws_crlf(s, i + 1, hi);
            if s[i] == '\n' {
                assert(is_ws('\r') && is_ws('\n'));
                assert(skip_ws(c, pos(s, i), pos(s, hi)) == skip_ws(c, pos(s, i) + 1, pos(s, hi)));
                if pos(s, i) + 1 < pos(s, hi) {
                    assert(skip_ws(c, pos(s, i) + 1, pos(s, hi)) == skip_ws(c, pos(s, i) + 2, pos(s, hi)));
                }
            }
        }
    }
}

proof fn lemma_back_ws_crlf(s: Seq<char>, lo: int, hi: int)
    requires
        0 <= lo <= hi <= s.len(),
    ensures
        back_ws(crlf(s), pos(s, lo), pos(s, hi)) == pos(s, back_ws(s, lo, hi)),
    decreases hi - lo,
{
    let c = crlf(s);
    lemma_pos(s, lo, hi);
    lemma_pos(s, hi, s.len() as int);
    if lo < hi {
        lemma_pos_step(s, hi - 1);
        lemma_pos(s, lo, hi - 1);
        if is_ws(s[hi - 1]) {
            lemma_back_ws_crlf(s, lo, hi - 1);
            if s[hi - 1] == '\n' {
                assert(is_ws('\r') && is_ws('\n'));
                assert(back_ws(c, pos(s, lo), pos(s, hi)) == back_ws(c, pos(s, lo), pos(s, hi) - 1));
                assert(back_ws(c, pos(s, lo), pos(s, hi) - 1) == back_ws(c, pos(s, lo), pos(s, hi) - 2));
            }
        }
    }
}

proof fn lemma_trim_crlf(s: Seq<char>, lo: int, hi: int)
    requires
        0 <= lo <= hi <= s.len(),
    ensures
        trim_range(crlf(s), pos(s, lo), pos(s, hi)) == crlf(trim_range(s, lo, hi)),
{
    lemma_skip_ws_bounds(s, lo, hi);
    let a = skip_ws(s, lo, hi);
    lemma_skip_ws_crlf(s, lo, hi);
    lemma_back_ws_crlf(s, a, hi);
    lemma_back_ws_bounds(s, a, hi);
    let b = back_ws(s, a, hi);
    lemma_pos(s, a, b);
}

proof fn lemma_back_ws_bounds(s: Seq<char>, lo: int, hi: int)
    requires
        0 <= lo <= hi <= s.len(),
    ensures
        lo <= back_ws(s, lo, hi) <= hi,
    decreases hi - lo,
{
    if lo < hi && is_ws(s[hi - 1]) {
        lemma_back_ws_bounds(s, lo, hi - 1);
    }
}

/// The text holds neither `\r` nor `\n`.
pub open spec fn one_line(s: Seq<char>) -> bool {
    forall|i: int| 0 <= i < s.len() ==> s[i] != '\r' && s[i] != '\n'
}

proof fn lemma_crlf_no_newline(s: Seq<char>)
    requires
        forall|i: int| 0 <= i < s.len() ==> s[i] != '\n',
    ensures
        crlf(s) == s,
    decreases s.len(),
{
    if s.len() > 0 {
        lemma_crlf_no_newline(s.drop_last());
        assert(crlf(s) =~= s);
    }
}

proof fn lemma_has_at_back(s: Seq<char>, i: int, lit: Seq<char>, k: int)
    requires
        0 <= i <= s.len(),
        one_line(lit),
        0 <= k <= lit.len(),
        has_at(crlf(s), pos(s, i), lit),
    ensures
        i + k <= s.len(),
        pos(s, i + k) == pos(s, i) + k,
        forall|j: int| 0 <= j < k ==> s[i + j] == lit[j],
    decreases k,
{
    lemma_pos(s, i, s.len() as int);
    if k > 0 {
        lemma_has_at_back(s, i, lit, k - 1);
        let c = crlf(s);
        let p = pos(s, i);
        assert(c[p + k - 1] == c.subrange(p, p + lit.len())[k - 1]);
        lemma_pos_step(s, i + k - 1);
        assert forall|j: int| 0 <= j < k implies s[i + j] == lit[j] by {
            if j < k - 1 {
            } else {
                assert(j == k - 1);
            }
        }
    }
}

proof fn lemma_has_at_crlf(s: Seq<char>, i: int, lit: Seq<char>)
    requires
        0 <= i <= s.len(),
        one_line(lit),
    ensures
        has_at(crlf(s), pos(s, i), lit) == has_at(s, i, lit),
        has_at(s, i, lit) ==> pos(s, i + lit.len()) == pos(s, i) + lit.len(),
{
    if has_at(s, i, lit) {
        lemma_pos(s, i, i + lit.len());
        assert(s.subrange(i, i + lit.len()) == lit);
        lemma_crlf_no_newline(lit);
    } else if has_at(crlf(s), pos(s, i), lit) {
        lemma_has_at_back(s, i, lit, lit.len() as int);
        assert(s.subrange(i, i + lit.len()) =~= lit);
    }
}

proof fn lemma_slashes_one_line()
    ensures
        one_line(slashes()),
        slashes().len() == 2,
        slashes()[0] == '/',
{
    reveal_strlit("//");
}

proof fn lemma_marker_end_crlf(s: Seq<char>, i: int, m: Seq<char>)
    requires
        0 <= i <= s.len(),
        one_line(m),
    ensures
        marker_end(s, i, m) matches Some(e) ==> marker_end(crlf(s), pos(s, i), m) == Some(
            pos(s, e),
        ),
        marker_end(s, i, m) is None ==> marker_end(crlf(s), pos(s, i), m) is None,
{
    let c = crlf(s);
    lemma_slashes_one_line();
    lemma_has_at_crlf(s, i, slashes());
    lemma_pos(s, s.len() as int, s.len() as int);
    if has_at(s, i, slashes()) {
        lemma_skip_ws_crlf(s, i + 2, s.len() as int);
        lemma_skip_ws_bounds(s, i + 2, s.len() as int);
        let w = skip_ws(s, i + 2, s.len() as int);
        lemma_has_at_crlf(s, w, m);
    }
}

/// Where `s[i]` is a line break, no marker starts at the `\n` that follows
/// the `\r` in the CR LF text.
proof fn lemma_no_marker_at_lf(s: Seq<char>, i: int, m: Seq<char>)
    requires
        0 <= i < s.len(),
        s[i] == '\n',
    ensures
        marker_end(crlf(s), pos(s, i) + 1, m) is None,
{
    let c = crlf(s);
    lemma_pos_step(s, i);
    lemma_slashes_one_line();
    let p = pos(s, i) + 1;
    if has_at(c, p, slashes()) {
        assert(c[p] == c.subrange(p, p + 2)[0]);
    }
}

proof fn lemma_first_marker_crlf(s: Seq<char>, i: int, m: Seq<char>)
    requires
        0 <= i <= s.len(),
        one_line(m),
    ensures
        first_marker(s, i, m) matches Some((a, e)) ==> first_marker(crlf(s), pos(s, i), m)
            == Some((pos(s, a), pos(s, e))),
        first_marker(s, i, m) is None ==> first_marker(crlf(s), pos(s, i), m) is None,
    decreases s.len() - i,
{
    let c = crlf(s);
    lemma_pos(s, i, s.len() as int);
    if i < s.len() {
        lemma_pos_step(s, i);
        lemma_pos_mono(s, i, s.len() as int);
        lemma_marker_end_crlf(s, i, m);
        if marker_end(s, i, m) is None {
            lemma_first_marker_crlf(s, i + 1, m);
            if s[i] == '\n' {
                lemma_no_marker_at_lf(s, i, m);
                assert(first_marker(c, pos(s, i) + 1, m) == first_marker(c, pos(s, i) + 2, m));
            }
        }
    }
}

proof fn lemma_markers_one_line()
    ensures
        one_line(open_marker()),
        one_line(close_marker()),
{
    reveal_strlit("==UserScript==");
    reveal_strlit("==/UserScript==");
}

proof fn lemma_header_span_crlf(s: Seq<char>)
    ensures
        header_span(s) matches Some((lo, hi, end)) ==> 0 <= lo <= hi <= end <= s.len()
            && header_span(crlf(s)) == Some((pos(s, lo), pos(s, hi), pos(s, end))),
        header_span(s) is None ==> header_span(crlf(s)) is None,
{
    lemma_markers_one_line();
    assert(s.subrange(0, 0) =~= Seq::<char>::empty());
    assert(pos(s, 0) == 0);
    lemma_first_marker_crlf(s, 0, open_marker());
    lemma_first_marker_bounds(s, 0, open_marker());
    match first_marker(s, 0, open_marker()) {
        None => {},
        Some((_, lo)) => {
            lemma_first_marker_crlf(s, lo, close_marker());
            lemma_first_marker_bounds(s, lo, close_marker());
        },
    }
}

proof fn lemma_trim_range_within(s: Seq<char>, lo: int, hi: int)
    requires
        0 <= lo <= hi <= s.len(),
    ensures
        forall|j: int| 0 <= j < trim_range(s, lo, hi).len() ==> exists|k: int|
            lo <= k < hi && #[trigger] trim_range(s, lo, hi)[j] == s[k],
{
    lemma_skip_ws_bounds(s, lo, hi);
    let a = skip_ws(s, lo, hi);
    lemma_back_ws_bounds(s, a, hi);
    let t = trim_range(s, lo, hi);
    assert forall|j: int| 0 <= j < t.len() implies exists|k: int|
        lo <= k < hi && #[trigger] t[j] == s[k] by {
        assert(t[j] == s[a + j]);
    }
}

/// The header's contents and the code of the CR LF text are those of the
/// text, with CR LF endings.
proof fn lemma_parts_crlf(s: Seq<char>)
    ensures
        header_block(crlf(s)) == crlf(header_block(s)),
        script_code(crlf(s)) == crlf(script_code(s)),
        no_cr(s) ==> no_cr(header_block(s)),
{
    lemma_header_span_crlf(s);
    lemma_pos(s, 0, s.len() as int);
    assert(s.subrange(0, 0) =~= Seq::<char>::empty());
    match header_span(s) {
        None => {
            lemma_trim_crlf(s, 0, s.len() as int);
        },
        Some((lo, hi, end)) => {
            lemma_trim_crlf(s, lo, hi);
            lemma_trim_crlf(s, end, s.len() as int);
            lemma_trim_range_within(s, lo, hi);
        },
    }
}

proof fn lemma_first_newline_found(s: Seq<char>, i: int)
    requires
        0 <= i,
    ensures
        first_newline(s, i) matches Some(k) ==> i <= k < s.len() && s[k] == '\n' && forall|j: int|
            i <= j < k ==> s[j] != '\n',
        first_newline(s, i) is None ==> forall|j: int| i <= j < s.len() ==> s[j] != '\n',
    decreases s.len() - i,
{
    if i < s.len() && s[i] != '\n' {
        lemma_first_newline_found(s, i + 1);
    }
}

proof fn lemma_first_newline_at(s: Seq<char>, i: int, k: int)
    requires
        0 <= i <= k < s.len(),
        s[k] == '\n',
        forall|j: int| i <= j < k ==> s[j] != '\n',
    ensures
        first_newline(s, i) == Some(k),
    decreases k - i,
{
    if i < k {
        lemma_first_newline_at(s, i + 1, k);
    }
}

proof fn lemma_crlf_len(x: Seq<char>)
    ensures
        x.len() <= crlf(x).len(),
    decreases x.len(),
{
    if x.len() > 0 {
        lemma_crlf_len(x.drop_last());
    }
}

/// Text without `\r` is split into the same lines with either ending.
proof fn lemma_lines_crlf(b: Seq<char>)
    requires
        no_cr(b),
    ensures
        lines(crlf(b)) == lines(b),
    decreases b.len(),
{
    lemma_first_newline_found(b, 0);
    match first_newline(b, 0) {
        None => {
            lemma_crlf_no_newline(b);
        },
        Some(k) => {
            let head = b.subrange(0, k);
            let rest = b.subrange(k + 1, b.len() as int);
            assert(b =~= (head + seq!['\n']) + rest);
            lemma_crlf_concat(head + seq!['\n'], rest);
            lemma_crlf_concat(head, seq!['\n']);
            lemma_crlf_one('\n');
            lemma_crlf_no_newline(head);
            let c = crlf(b);
            let cr = crlf(rest);
            assert(c =~= head + seq!['\r', '\n'] + cr);
            lemma_first_newline_at(c, 0, k + 1);
            lemma_lines_crlf(rest);
            assert(c.subrange(0, k + 1) =~= head.push('\r'));
            assert(head.push('\r').drop_last() =~= head);
            assert(c.subrange(k + 2, c.len() as int) =~= cr);
            assert(strip_cr(head) == head);
        },
    }
}

/// A script written with Windows line endings (each `\n` as `\r\n`) parses
/// like the same script with `\n` endings: it has code exactly when that
/// script has, the same metadata, and the same code with Windows endings.
pub proof fn lemma_crlf_parses_alike(s: Seq<char>)
    requires
        no_cr(s),
    ensures
        script_code(crlf(s)) == crlf(script_code(s)),
        (script_code(crlf(s)).len() == 0) == (script_code(s).len() == 0),
        parsed_script(crlf(s)) == (ScriptSpec { code: crlf(script_code(s)), ..parsed_script(s) }),
{
    lemma_parts_crlf(s);
    lemma_lines_crlf(header_block(s));
    lemma_crlf_len(script_code(s));
    if script_code(s).len() == 0 {
        assert(script_code(s) =~= Seq::<char>::empty());
        assert(crlf(Seq::<char>::empty()) == Seq::<char>::empty());
    }
    assert(header_entries(crlf(s)) == header_entries(s));
}

} // verus!
