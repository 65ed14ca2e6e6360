//! Directives that steer the grouping of events.
//!
//! An HTML comment of the form
//! `<!-- i18n:<command> -->` or `<!-- mdbook-xgettext:<command> -->`
//! carries a directive.  The opening needs two or more dashes, blanks
//! are tolerated around the prefix and the command, and the command
//! runs up to the last closing `-->` on its line.  Two commands are
//! recognized: `skip`, and `comment` followed by a translator note.

use vstd::prelude::*;

use crate::text::{chars_to_string, str_chars};

verus! {

/// A grouping directive found in an HTML comment.
#[derive(Debug, PartialEq)]
pub enum Directive {
    /// The next translatable group is not translated.
    Skip,
    /// A translator comment to attach to the next translatable group.
    Comment(String),
}

/// Whether a character is Unicode whitespace, as the `White_Space`
/// property defines it.
pub uninterp spec fn is_unicode_whitespace(c: char) -> bool;

/// Relies on `char::is_whitespace` of std: the `White_Space`
/// property; space, tab, newline and carriage return have it, ASCII
/// letters, digits and the punctuation below do not.
pub assume_specification[ char::is_whitespace ](c: char) -> (r: bool)
    ensures
        r == is_unicode_whitespace(c),
        c == ' ' || c == '\t' || c == '\n' || c == '\r' ==> r,
        c == ':' || c == '-' || c == '<' || c == '>' || c == '!' || c == '.' || c == '/' ==> !r,
        48 <= c as int <= 57 || 65 <= c as int <= 90 || 97 <= c as int <= 122 ==> !r,
;

/// Whether a character separates the command word from what follows.
pub open spec fn spec_is_delimiter(c: char) -> bool {
    is_unicode_whitespace(c) || c == ':' || c == '-'
}

/// Whether a character separates the command word from what follows:
/// whitespace, a colon, or a dash.
pub fn is_delimiter(c: char) -> (r: bool)
    ensures
        r == spec_is_delimiter(c),
{
    c.is_whitespace() || c == ':' || c == '-'
}

/// The number of whitespace characters at the front of `s` from `i`.
pub open spec fn skip_ws(s: Seq<char>, i: int) -> int
    decreases s.len() - i,
{
    if i < 0 || i >= s.len() || !is_unicode_whitespace(s[i]) {
        i
    } else {
        skip_ws(s, i + 1)
    }
}

/// The number of consecutive dashes at position `i`.
pub open spec fn dash_run(s: Seq<char>, i: int) -> int
    decreases s.len() - i,
{
    if i < 0 || i >= s.len() || s[i] != '-' {
        0
    } else {
        1 + dash_run(s, i + 1)
    }
}

/// The number of whitespace characters at the end of `s`.
pub open spec fn ws_suffix(s: Seq<char>) -> int
    decreases s.len(),
{
    if s.len() == 0 || !is_unicode_whitespace(s.last()) {
        0
    } else {
        1 + ws_suffix(s.drop_last())
    }
}

/// `s` without leading and trailing whitespace.
pub open spec fn spec_trim(s: Seq<char>) -> Seq<char> {
    let a = skip_ws(s, 0);
    if a == s.len() {
        Seq::empty()
    } else {
        s.subrange(a, s.len() - ws_suffix(s))
    }
}

/// Whether `lit` occurs in `s` at position `i`.
pub open spec fn has_at(s: Seq<char>, i: int, lit: Seq<char>) -> bool {
    0 <= i && i + lit.len() <= s.len() && s.subrange(i, i + lit.len()) == lit
}

pub open spec fn lit_i18n() -> Seq<char> {
    seq!['i', '1', '8', 'n']
}

pub open spec fn lit_xgettext() -> Seq<char> {
    seq!['m', 'd', 'b', 'o', 'o', 'k', '-', 'x', 'g', 'e', 't', 't', 'e', 'x', 't']
}

pub open spec fn lit_skip() -> Seq<char> {
    seq!['s', 'k', 'i', 'p']
}

pub open spec fn lit_comment() -> Seq<char> {
    seq!['c', 'o', 'm', 'm', 'e', 'n', 't']
}

/// Where the command starts if a directive opening stands at `p`:
/// `<!`, two or more dashes, optional blanks, one of the two
/// prefixes, optional blanks and a colon.  Negative when there is no
/// opening at `p`.
pub open spec fn open_at(s: Seq<char>, p: int) -> int {
    if 0 <= p && p + 2 <= s.len() && s[p] == '<' && s[p + 1] == '!' && dash_run(s, p + 2) >= 2 {
        let w = skip_ws(s, p + 2 + dash_run(s, p + 2));
        let after = if has_at(s, w, lit_i18n()) {
            w + lit_i18n().len()
        } else if has_at(s, w, lit_xgettext()) {
            w + lit_xgettext().len()
        } else {
            -1
        };
        if after >= 0 {
            let colon = skip_ws(s, after);
            if colon < s.len() && s[colon] == ':' {
                colon + 1
            } else {
                -1
            }
        } else {
            -1
        }
    } else {
        -1
    }
}

/// Whether the comment closes at `e`: the command would end with a
/// character other than a dash, and two or more dashes followed by
/// `>` stand at `e`.
pub open spec fn close_ok(s: Seq<char>, cmd_start: int, e: int) -> bool {
    &&& cmd_start < e <= s.len()
    &&& s[e - 1] != '-'
    &&& dash_run(s, e) >= 2
    &&& e + dash_run(s, e) < s.len()
    &&& s[e + dash_run(s, e)] == '>'
    &&& forall|k: int| cmd_start <= k < e ==> s[k] != '\n'
}

/// The largest end position of the command at or below `e`, or a
/// negative number when none closes.
pub open spec fn find_close(s: Seq<char>, cmd_start: int, e: int) -> int
    decreases e - cmd_start,
{
    if e <= cmd_start {
        -1
    } else if close_ok(s, cmd_start, e) {
        e
    } else {
        find_close(s, cmd_start, e - 1)
    }
}

/// The leftmost position at or after `p` where the whole directive
/// pattern matches, with the bounds of its command part, or `None`.
pub open spec fn find_pattern(s: Seq<char>, p: int) -> Option<(int, int)>
    decreases s.len() - p,
{
    if p < 0 || p >= s.len() {
        None
    } else {
        let cmd_start = open_at(s, p);
        if cmd_start >= 0 && find_close(s, cmd_start, s.len() as int) >= 0 {
            Some((cmd_start, find_close(s, cmd_start, s.len() as int)))
        } else {
            find_pattern(s, p + 1)
        }
    }
}

/// The first position of a delimiter in `s`, or the length.
pub open spec fn first_delim(s: Seq<char>, i: int) -> int
    decreases s.len() - i,
{
    if i < 0 || i >= s.len() || spec_is_delimiter(s[i]) {
        i
    } else {
        first_delim(s, i + 1)
    }
}

/// Mathematical model of a [`Directive`].
pub enum DirectiveS {
    Skip,
    Comment(Seq<char>),
}

impl View for Directive {
    type V = DirectiveS;

    open spec fn view(&self) -> DirectiveS {
        match self {
            Directive::Skip => DirectiveS::Skip,
            Directive::Comment(s) => DirectiveS::Comment(s@),
        }
    }
}

/// The directive carried by `html`, if any: the command of the first
/// well-formed directive comment, with `skip` and `comment` commands
/// recognized and anything else ignored.
pub open spec fn spec_find_directive(html: Seq<char>) -> Option<DirectiveS> {
    let t = spec_trim(html);
    match find_pattern(t, 0) {
        None => None,
        Some((cmd_start, e)) => {
            let c = spec_trim(t.subrange(cmd_start, e));
            let token = c.subrange(0, first_delim(c, 0));
            if token == lit_skip() {
                Some(DirectiveS::Skip)
            } else if token == lit_comment() {
                let cut = if c.len() < 8 {
                    c.len() as int
                } else {
                    8
                };
                Some(DirectiveS::Comment(spec_trim(c.subrange(cut, c.len() as int))))
            } else {
                None
            }
        },
    }
}

proof fn lemma_skip_ws_props(s: Seq<char>, i: int)
    requires
        0 <= i <= s.len(),
    ensures
        i <= skip_ws(s, i) <= s.len(),
        forall|m: int| i <= m < skip_ws(s, i) ==> is_unicode_whitespace(s[m]),
        skip_ws(s, i) < s.len() ==> !is_unicode_whitespace(s[skip_ws(s, i)]),
    decreases s.len() - i,
{
    if i < s.len() && is_unicode_whitespace(s[i]) {
        lemma_skip_ws_props(s, i + 1);
    }
}

fn exec_skip_ws(t: &Vec<char>, from: usize) -> (r: usize)
    requires
        from <= t@.len(),
    ensures
        r == skip_ws(t@, from as int),
        from <= r <= t@.len(),
{
    let mut i: usize = from;
    while i < t.len() && t[i].is_whitespace()
        invariant
            from <= i <= t@.len(),
            skip_ws(t@, from as int) == skip_ws(t@, i as int),
        decreases t@.len() - i,
    {
        i = i + 1;
    }
    i
}

fn exec_dash_run(t: &Vec<char>, from: usize) -> (r: usize)
    requires
        from <= t@.len(),
    ensures
        r == dash_run(t@, from as int),
        from + r <= t@.len(),
{
    let mut i: usize = from;
    while i < t.len() && t[i] == '-'
        invariant
            from <= i <= t@.len(),
            dash_run(t@, from as int) == i - from + dash_run(t@, i as int),
        decreases t@.len() - i,
    {
        i = i + 1;
    }
    i - from
}

fn exec_first_delim(t: &Vec<char>, from: usize) -> (r: usize)
    requires
        from <= t@.len(),
    ensures
        r == first_delim(t@, from as int),
        from <= r <= t@.len(),
{
    let mut i: usize = from;
    while i < t.len() && !is_delimiter(t[i])
        invariant
            from <= i <= t@.len(),
            first_delim(t@, from as int) == first_delim(t@, i as int),
        decreases t@.len() - i,
    {
        i = i + 1;
    }
    i
}

fn exec_has_at(t: &Vec<char>, i: usize, lit: &Vec<char>) -> (r: bool)
    ensures
        r == has_at(t@, i as int, lit@),
{
    if i > t.len() || lit.len() > t.len() - i {
        return false;
    }
    let mut k: usize = 0;
    while k < lit.len()
        invariant
            0 <= k <= lit@.len(),
            i + lit@.len() <= t@.len(),
            forall|m: int| 0 <= m < k ==> t@[i + m] == lit@[m],
        decreases lit@.len() - k,
    {
        let n: usize = t.len();
        proof {
            assert(i + k < n as int);
        }
        let idx: usize = i + k;
        if t[idx] != lit[k] {
            proof {
                assert(t@.subrange(i as int, i + lit@.len())[k as int] != lit@[k as int]);
            }
            return false;
        }
        k = k + 1;
    }
    proof {
        assert(t@.subrange(i as int, i + lit@.len()) =~= lit@);
    }
    true
}

fn lit_i18n_vec() -> (r: Vec<char>)
    ensures
        r@ == lit_i18n(),
{
    let r: Vec<char> = vec!['i', '1', '8', 'n'];
    proof {
        assert(r@ =~= lit_i18n());
    }
    r
}

fn lit_xgettext_vec() -> (r: Vec<char>)
    ensures
        r@ == lit_xgettext(),
{
    let r: Vec<char> = vec!['m', 'd', 'b', 'o', 'o', 'k', '-', 'x', 'g', 'e', 't', 't', 'e', 'x', 't'];
    proof {
        assert(r@ =~= lit_xgettext());
    }
    r
}

fn lit_skip_vec() -> (r: Vec<char>)
    ensures
        r@ == lit_skip(),
{
    let r: Vec<char> = vec!['s', 'k', 'i', 'p'];
    proof {
        assert(r@ =~= lit_skip());
    }
    r
}

fn lit_comment_vec() -> (r: Vec<char>)
    ensures
        r@ == lit_comment(),
{
    let r: Vec<char> = vec!['c', 'o', 'm', 'm', 'e', 'n', 't'];
    proof {
        assert(r@ =~= lit_comment());
    }
    r
}

/// Trims whitespace from both ends of the characters of `v`.
fn exec_trim(v: &Vec<char>) -> (r: Vec<char>)
    ensures
        r@ == spec_trim(v@),
{
    let a = exec_skip_ws(v, 0);
    proof {
        lemma_skip_ws_props(v@, 0);
    }
    if a == v.len() {
        let r: Vec<char> = Vec::new();
        proof {
            assert(r@ =~= spec_trim(v@));
        }
        return r;
    }
    let mut suffix: usize = 0;
    while suffix < v.len() && v[v.len() - 1 - suffix].is_whitespace()
        invariant
            0 <= suffix <= v@.len(),
            forall|m: int| v@.len() - suffix <= m < v@.len() ==> is_unicode_whitespace(v@[m]),
        decreases v@.len() - suffix,
    {
        suffix = suffix + 1;
    }
    proof {
        lemma_ws_suffix(v@, suffix as int);
    }
    let end: usize = v.len() - suffix;
    proof {
        assert(a < v@.len());
        assert(!is_unicode_whitespace(v@[a as int]));
        assert(a < end) by {
            if end <= a {
                assert(is_unicode_whitespace(v@[a as int]));
            }
        }
    }
    let mut r: Vec<char> = Vec::new();
    let mut i: usize = a;
    while i < end
        invariant
            a <= i <= end <= v@.len(),
            r@ =~= v@.subrange(a as int, i as int),
        decreases end - i,
    {
        r.push(v[i]);
        proof {
            assert(r@ =~= v@.subrange(a as int, i + 1));
        }
        i = i + 1;
    }
    proof {
        assert(r@ =~= v@.subrange(a as int, v@.len() - ws_suffix(v@)));
    }
    r
}

proof fn lemma_ws_suffix(s: Seq<char>, suffix: int)
    requires
        0 <= suffix <= s.len(),
        forall|m: int| s.len() - suffix <= m < s.len() ==> is_unicode_whitespace(s[m]),
        suffix == s.len() || !is_unicode_whitespace(s[s.len() - suffix - 1]),
    ensures
        ws_suffix(s) == suffix,
    decreases suffix,
{
    if suffix == 0 {
        if s.len() > 0 {
            assert(!is_unicode_whitespace(s.last()));
        }
    } else {
        assert(is_unicode_whitespace(s.last()));
        lemma_ws_suffix(s.drop_last(), suffix - 1);
    }
}

fn exec_open_at(t: &Vec<char>, p: usize) -> (r: Option<usize>)
    requires
        p < t@.len(),
    ensures
        match r {
            Some(c) => open_at(t@, p as int) == c as int && p < c <= t@.len(),
            None => open_at(t@, p as int) < 0,
        },
{
    if t.len() - p < 2 || t[p] != '<' || t[p + 1] != '!' {
        return None;
    }
    let d = exec_dash_run(t, p + 2);
    if d < 2 {
        return None;
    }
    let w = exec_skip_ws(t, p + 2 + d);
    let i18n = lit_i18n_vec();
    let xget = lit_xgettext_vec();
    let after: usize = if exec_has_at(t, w, &i18n) {
        w + i18n.len()
    } else if exec_has_at(t, w, &xget) {
        w + xget.len()
    } else {
        return None;
    };
    let colon = exec_skip_ws(t, after);
    if colon < t.len() && t[colon] == ':' {
        Some(colon + 1)
    } else {
        None
    }
}

fn exec_find_close(t: &Vec<char>, cmd_start: usize) -> (r: Option<usize>)
    requires
        cmd_start <= t@.len(),
    ensures
        match r {
            Some(e) => find_close(t@, cmd_start as int, t@.len() as int) == e as int && cmd_start
                < e <= t@.len(),
            None => find_close(t@, cmd_start as int, t@.len() as int) < 0,
        },
{
    // The position of the first newline at or after the command
    // start; a command may not cross it.
    let mut nl: usize = cmd_start;
    while nl < t.len() && t[nl] != '\n'
        invariant
            cmd_start <= nl <= t@.len(),
            forall|m: int| cmd_start <= m < nl ==> t@[m] != '\n',
        decreases t@.len() - nl,
    {
        nl = nl + 1;
    }
    let mut e: usize = t.len();
    while e > cmd_start
        invariant
            cmd_start <= e <= t@.len(),
            find_close(t@, cmd_start as int, t@.len() as int) == find_close(
                t@,
                cmd_start as int,
                e as int,
            ),
            cmd_start <= nl <= t@.len(),
            forall|m: int| cmd_start <= m < nl ==> t@[m] != '\n',
            nl == t@.len() || t@[nl as int] == '\n',
        decreases e,
    {
        let m = exec_dash_run(t, e);
        let n: usize = t.len();
        proof {
            assert(e + m <= n as int);
        }
        let closes: bool = if t[e - 1] == '-' || m < 2 || e > nl {
            false
        } else {
            let j: usize = e + m;
            j < n && t[j] == '>'
        };
        proof {
            let s = t@;
            let cs = cmd_start as int;
            let ei = e as int;
            assert(m == dash_run(s, ei));
            if closes {
                assert forall|k: int| cs <= k < ei implies s[k] != '\n' by {
                    assert(k < nl);
                }
                assert(close_ok(s, cs, ei));
            } else {
                if close_ok(s, cs, ei) {
                    if e > nl {
                        assert(nl < ei <= s.len());
                        assert(s[nl as int] == '\n');
                        assert(s[nl as int] != '\n');
                    } else {
                        assert(s[ei - 1] != '-');
                        assert(dash_run(s, ei) >= 2);
                        assert(ei + dash_run(s, ei) < s.len());
                        assert(s[ei + dash_run(s, ei)] == '>');
                        assert(closes);
                    }
                }
            }
        }
        if closes {
            return Some(e);
        }
        e = e - 1;
    }
    None
}

fn exec_find_pattern(t: &Vec<char>) -> (r: Option<(usize, usize)>)
    ensures
        match r {
            Some(f) => find_pattern(t@, 0) == Some((f.0 as int, f.1 as int)) && f.0 < f.1
                <= t@.len(),
            None => find_pattern(t@, 0) is None,
        },
{
    let mut p: usize = 0;
    while p < t.len()
        invariant
            0 <= p <= t@.len(),
            find_pattern(t@, 0) == find_pattern(t@, p as int),
        decreases t@.len() - p,
    {
        match exec_open_at(t, p) {
            Some(cmd_start) => {
                match exec_find_close(t, cmd_start) {
                    Some(e) => {
                        return Some((cmd_start, e));
                    },
                    None => {},
                }
            },
            None => {},
        }
        p = p + 1;
    }
    None
}

/// Find the directive carried by an HTML comment, if any.
pub fn find(html: &str) -> (r: Option<Directive>)
    ensures
        match r {
            Some(d) => spec_find_directive(html@) == Some(d@),
            None => spec_find_directive(html@) is None,
        },
{
    let chars = str_chars(html);
    let t = exec_trim(&chars);
    let (cmd_start, e) = match exec_find_pattern(&t) {
        Some(f) => f,
        None => {
            return None;
        },
    };
    let mut cmd: Vec<char> = Vec::new();
    let mut i: usize = cmd_start;
    while i < e
        invariant
            cmd_start <= i <= e <= t@.len(),
            cmd@ =~= t@.subrange(cmd_start as int, i as int),
        decreases e - i,
    {
        cmd.push(t[i]);
        proof {
            assert(cmd@ =~= t@.subrange(cmd_start as int, i + 1));
        }
        i = i + 1;
    }
    let c = exec_trim(&cmd);
    let d = exec_first_delim(&c, 0);
    let mut token: Vec<char> = Vec::new();
    let mut k: usize = 0;
    while k < d
        invariant
            0 <= k <= d <= c@.len(),
            token@ =~= c@.subrange(0, k as int),
        decreases d - k,
    {
        token.push(c[k]);
        proof {
            assert(token@ =~= c@.subrange(0, k + 1));
        }
        k = k + 1;
    }
    proof {
        assert(token@ =~= c@.subrange(0, first_delim(c@, 0)));
    }
    let skip_lit = lit_skip_vec();
    let comment_lit = lit_comment_vec();
    if vec_chars_eq(&token, &skip_lit) {
        Some(Directive::Skip)
    } else if vec_chars_eq(&token, &comment_lit) {
        let cut: usize = if c.len() < 8 {
            c.len()
        } else {
            8
        };
        let mut restv: Vec<char> = Vec::new();
        let mut m: usize = cut;
        while m < c.len()
            invariant
                cut <= m <= c@.len(),
                restv@ =~= c@.subrange(cut as int, m as int),
            decreases c@.len() - m,
        {
            restv.push(c[m]);
            proof {
                assert(restv@ =~= c@.subrange(cut as int, m + 1));
            }
            m = m + 1;
        }
        let trimmed = exec_trim(&restv);
        let comment = chars_to_string(trimmed.as_slice());
        Some(Directive::Comment(comment))
    } else {
        None
    }
}

fn vec_chars_eq(a: &Vec<char>, b: &Vec<char>) -> (r: bool)
    ensures
        r == (a@ == b@),
{
    if a.len() != b.len() {
        proof {
            assert(a@ != b@) by {
                assert(a@.len() != b@.len());
            }
        }
        return false;
    }
    let mut i: usize = 0;
    while i < a.len()
        invariant
            0 <= i <= a@.len(),
            a@.len() == b@.len(),
            forall|m: int| 0 <= m < i ==> a@[m] == b@[m],
        decreases a@.len() - i,
    {
        if a[i] != b[i] {
            return false;
        }
        i = i + 1;
    }
    proof {
        assert(a@ =~= b@);
    }
    true
}

} // verus!
