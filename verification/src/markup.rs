use vstd::prelude::*;

verus! {

/// First position at or after `i` holding `close` or a line break; the
/// length if there is none. A span never crosses a line break.
pub open spec fn find_close(s: Seq<char>, i: int, close: char) -> int
    decreases s.len() - i,
{
    if i < 0 || i >= s.len() {
        s.len() as int
    } else if s[i] == close || s[i] == '\n' {
        i
    } else {
        find_close(s, i + 1, close)
    }
}

pub proof fn lemma_find_close_range(s: Seq<char>, i: int, close: char)
    requires
        0 <= i <= s.len(),
    ensures
        i <= find_close(s, i, close) <= s.len(),
    decreases s.len() - i,
{
    if i < s.len() && !(s[i] == close || s[i] == '\n') {
        lemma_find_close_range(s, i + 1, close);
    }
}

/// The characters of `s` from `i` on, with every span from an `open` up to
/// the nearest `close` on the same line removed, spans taken left to right.
pub open spec fn strip_spans_from(s: Seq<char>, i: int, open: char, close: char) -> Seq<char>
    decreases s.len() - i,
    when 0 <= i
    via strip_spans_from_decreases
{
    if i >= s.len() {
        Seq::empty()
    } else if s[i] == open && find_close(s, i + 1, close) < s.len() && s[find_close(
        s,
        i + 1,
        close,
    )] == close {
        strip_spans_from(s, find_close(s, i + 1, close) + 1, open, close)
    } else {
        seq![s[i]] + strip_spans_from(s, i + 1, open, close)
    }
}

#[via_fn]
proof fn strip_spans_from_decreases(s: Seq<char>, i: int, open: char, close: char) {
    if 0 <= i < s.len() {
        lemma_find_close_range(s, i + 1, close);
    }
}

/// Scanning over characters that are neither `close` nor a line break
/// arrives exactly at `find_close`.
proof fn lemma_find_close_at(s: Seq<char>, i: int, j: int, close: char)
    requires
        0 <= i <= j <= s.len(),
        forall|k: int| i <= k < j ==> (#[trigger] s[k]) != close && s[k] != '\n',
        j == s.len() || s[j] == close || s[j] == '\n',
    ensures
        find_close(s, i, close) == j,
    decreases j - i,
{
    if i < j {
        assert(s[i] != close && s[i] != '\n');
        lemma_find_close_at(s, i + 1, j, close);
    }
}

/// Removes every `open`..`close` span (shortest, within one line), as the
/// markup-stripping pass does for HTML tags and square-bracket tags.
pub fn strip_spans(v: &Vec<char>, open: char, close: char) -> (r: Vec<char>)
    ensures
        r@ == strip_spans_from(v@, 0, open, close),
{
    let mut out: Vec<char> = Vec::new();
    let mut i: usize = 0;
    while i < v.len()
        invariant
            i <= v@.len(),
            strip_spans_from(v@, 0, open, close) == out@ + strip_spans_from(
                v@,
                i as int,
                open,
                close,
            ),
        decreases v@.len() - i,
    {
        let ghost out0 = out@;
        if v[i] == open {
            let mut j = i + 1;
            while j < v.len() && v[j] != close && v[j] != '\n'
                invariant
                    i + 1 <= j <= v@.len(),
                    forall|k: int| i + 1 <= k < j ==> (#[trigger] v@[k]) != close && v@[k] != '\n',
                decreases v@.len() - j,
            {
                j = j + 1;
            }
            proof {
                lemma_find_close_at(v@, i + 1, j as int, close);
            }
            if j < v.len() && v[j] == close {
                proof {
                    assert(strip_spans_from(v@, i as int, open, close) == strip_spans_from(
                        v@,
                        j + 1,
                        open,
                        close,
                    ));
                }
                i = j + 1;
            } else {
                out.push(v[i]);
                proof {
                    assert(out@ =~= out0 + seq![v@[i as int]]);
                    assert(strip_spans_from(v@, i as int, open, close) == seq![v@[i as int]]
                        + strip_spans_from(v@, i + 1, open, close));
                    assert(out0 + (seq![v@[i as int]] + strip_spans_from(v@, i + 1, open, close))
                        =~= out@ + strip_spans_from(v@, i + 1, open, close));
                }
                i = i + 1;
            }
        } else {
            out.push(v[i]);
            proof {
                assert(out@ =~= out0 + seq![v@[i as int]]);
                assert(strip_spans_from(v@, i as int, open, close) == seq![v@[i as int]]
                    + strip_spans_from(v@, i + 1, open, close));
                assert(out0 + (seq![v@[i as int]] + strip_spans_from(v@, i + 1, open, close)) =~= out@
                    + strip_spans_from(v@, i + 1, open, close));
            }
            i = i + 1;
        }
    }
    proof {
        assert(strip_spans_from(v@, v@.len() as int, open, close) =~= Seq::<char>::empty());
        assert(out@ + strip_spans_from(v@, v@.len() as int, open, close) =~= out@);
    }
    out
}

pub open spec fn is_ascii_alpha(c: char) -> bool {
    ('a' <= c && c <= 'z') || ('A' <= c && c <= 'Z')
}

pub open spec fn is_ascii_digit(c: char) -> bool {
    '0' <= c && c <= '9'
}

pub open spec fn is_ascii_alnum(c: char) -> bool {
    is_ascii_alpha(c) || is_ascii_digit(c)
}

/// A character the entity pattern's starred class accepts: letters, digits,
/// `-` and `.`.
pub open spec fn is_entity_body(c: char) -> bool {
    is_ascii_alnum(c) || c == '-' || c == '.'
}

/// First position at or after `i` whose character falls outside the entity
/// body class; the length if there is none.
pub open spec fn body_end(s: Seq<char>, i: int) -> int
    decreases s.len() - i,
{
    if i < 0 || i >= s.len() {
        s.len() as int
    } else if !is_entity_body(s[i]) {
        i
    } else {
        body_end(s, i + 1)
    }
}

pub proof fn lemma_body_end_range(s: Seq<char>, i: int)
    requires
        0 <= i <= s.len(),
    ensures
        i <= body_end(s, i) <= s.len(),
    decreases s.len() - i,
{
    if i < s.len() && is_entity_body(s[i]) {
        lemma_body_end_range(s, i + 1);
    }
}

/// Last position in `[i, j)` holding `-` or `.`, or -1 if there is none:
/// where a greedy match gives one character back when the body runs to the
/// end of the text.
pub open spec fn last_dot_dash(s: Seq<char>, i: int, j: int) -> int
    decreases j - i,
{
    if j <= i {
        -1
    } else if s[j - 1] == '-' || s[j - 1] == '.' {
        j - 1
    } else {
        last_dot_dash(s, i, j - 1)
    }
}

pub proof fn lemma_last_dot_dash_range(s: Seq<char>, i: int, j: int)
    requires
        0 <= i,
    ensures
        last_dot_dash(s, i, j) == -1 || i <= last_dot_dash(s, i, j) < j,
    decreases j - i,
{
    if j > i && !(s[j - 1] == '-' || s[j - 1] == '.') {
        lemma_last_dot_dash_range(s, i, j - 1);
    }
}

/// Where a match of the entity pattern starting at `p` ends (one past its
/// last character), or -1 if the pattern does not match at `p`: `&`, one
/// letter, the longest run of body characters, then one character outside
/// the letter-digit class, which the match consumes.
pub open spec fn entity_end(s: Seq<char>, p: int) -> int {
    if 0 <= p && p + 1 < s.len() && s[p] == '&' && is_ascii_alpha(s[p + 1]) {
        let m = body_end(s, p + 2);
        if m < s.len() {
            m + 1
        } else {
            let k = last_dot_dash(s, p + 2, m);
            if k >= 0 {
                k + 1
            } else {
                -1
            }
        }
    } else {
        -1
    }
}

pub proof fn lemma_entity_end_range(s: Seq<char>, p: int)
    requires
        0 <= p,
    ensures
        entity_end(s, p) == -1 || p + 2 <= entity_end(s, p) <= s.len(),
{
    if 0 <= p && p + 1 < s.len() && s[p] == '&' && is_ascii_alpha(s[p + 1]) {
        lemma_body_end_range(s, p + 2);
        lemma_last_dot_dash_range(s, p + 2, body_end(s, p + 2));
    }
}

/// The characters of `s` from `i` on with every matched entity removed,
/// matches taken left to right.
pub open spec fn strip_entities_from(s: Seq<char>, i: int) -> Seq<char>
    decreases s.len() - i,
    when 0 <= i
    via strip_entities_from_decreases
{
    if i >= s.len() {
        Seq::empty()
    } else if entity_end(s, i) >= 0 {
        strip_entities_from(s, entity_end(s, i))
    } else {
        seq![s[i]] + strip_entities_from(s, i + 1)
    }
}

#[via_fn]
proof fn strip_entities_from_decreases(s: Seq<char>, i: int) {
    if 0 <= i < s.len() {
        lemma_entity_end_range(s, i);
    }
}

proof fn lemma_body_end_at(s: Seq<char>, i: int, j: int)
    requires
        0 <= i <= j <= s.len(),
        forall|k: int| i <= k < j ==> is_entity_body(#[trigger] s[k]),
        j == s.len() || !is_entity_body(s[j]),
    ensures
        body_end(s, i) == j,
    decreases j - i,
{
    if i < j {
        assert(is_entity_body(s[i]));
        lemma_body_end_at(s, i + 1, j, );
    }
}

proof fn lemma_last_dot_dash_at(s: Seq<char>, i: int, j: int, k: int)
    requires
        0 <= i <= k < j,
        s[k] == '-' || s[k] == '.',
        forall|x: int| k < x < j ==> (#[trigger] s[x]) != '-' && s[x] != '.',
    ensures
        last_dot_dash(s, i, j) == k,
    decreases j - k,
{
    if k < j - 1 {
        lemma_last_dot_dash_at(s, i, j - 1, k);
    }
}

proof fn lemma_last_dot_dash_none(s: Seq<char>, i: int, j: int)
    requires
        0 <= i,
        forall|x: int| i <= x < j ==> (#[trigger] s[x]) != '-' && s[x] != '.',
    ensures
        last_dot_dash(s, i, j) == -1,
    decreases j - i,
{
    if j > i {
        lemma_last_dot_dash_none(s, i, j - 1);
    }
}

fn is_entity_body_exec(c: char) -> (r: bool)
    ensures
        r == is_entity_body(c),
{
    ('a' <= c && c <= 'z') || ('A' <= c && c <= 'Z') || ('0' <= c && c <= '9') || c == '-' || c
        == '.'
}

/// Removes every run matching the HTML-entity pattern: `&`, a letter, a
/// run of letters, digits, `-` and `.`, then one character outside the
/// letter-digit class, consumed with the entity.
pub fn strip_entities(v: &Vec<char>) -> (r: Vec<char>)
    ensures
        r@ == strip_entities_from(v@, 0),
{
    let mut out: Vec<char> = Vec::new();
    let mut i: usize = 0;
    while i < v.len()
        invariant
            i <= v@.len(),
            strip_entities_from(v@, 0) == out@ + strip_entities_from(v@, i as int),
        decreases v@.len() - i,
    {
        let ghost out0 = out@;
        let mut matched_end: usize = 0;
        let mut matched = false;
        if v[i] == '&' && i + 1 < v.len()
            && (('a' <= v[i + 1] && v[i + 1] <= 'z') || ('A' <= v[i + 1] && v[i + 1] <= 'Z')) {
            let mut m = i + 2;
            while m < v.len() && is_entity_body_exec(v[m])
                invariant
                    i + 2 <= m <= v@.len(),
                    forall|k: int| i + 2 <= k < m ==> is_entity_body(#[trigger] v@[k]),
                decreases v@.len() - m,
            {
                m = m + 1;
            }
            proof {
                lemma_body_end_at(v@, i + 2, m as int);
            }
            if m < v.len() {
                matched = true;
                matched_end = m + 1;
            } else {
                let mut k = m;
                while k > i + 2 && v[k - 1] != '-' && v[k - 1] != '.'
                    invariant
                        i + 2 <= k <= m,
                        m == v@.len(),
                        forall|x: int| k <= x < m ==> (#[trigger] v@[x]) != '-' && v@[x] != '.',
                    decreases k,
                {
                    k = k - 1;
                }
                if k > i + 2 {
                    proof {
                        lemma_last_dot_dash_at(v@, i + 2, m as int, k - 1);
                    }
                    matched = true;
                    matched_end = k;
                } else {
                    proof {
                        lemma_last_dot_dash_none(v@, i + 2, m as int);
                    }
                }
            }
        }
        if matched {
            proof {
                assert(entity_end(v@, i as int) == matched_end);
                assert(strip_entities_from(v@, i as int) == strip_entities_from(
                    v@,
                    matched_end as int,
                ));
            }
            i = matched_end;
        } else {
            out.push(v[i]);
            proof {
                assert(entity_end(v@, i as int) == -1);
                assert(out@ =~= out0 + seq![v@[i as int]]);
                assert(strip_entities_from(v@, i as int) == seq![v@[i as int]]
                    + strip_entities_from(v@, i + 1));
                assert(out0 + (seq![v@[i as int]] + strip_entities_from(v@, i + 1)) =~= out@
                    + strip_entities_from(v@, i + 1));
            }
            i = i + 1;
        }
    }
    proof {
        assert(strip_entities_from(v@, v@.len() as int) =~= Seq::<char>::empty());
        assert(out@ + strip_entities_from(v@, v@.len() as int) =~= out@);
    }
    out
}

} // verus!
