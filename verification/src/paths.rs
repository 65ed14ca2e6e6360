//! Deterministic allocation of unique catalog output paths.
//!
//! The extractor walks the chapter tree and needs one output path
//! per part or chapter, stable under duplicates: two parts with the
//! same name get `foo.pot` and `foo-1.pot`.  The builder keeps the
//! current path as a list of slug segments, the current depth, and a
//! frequency table of the paths produced so far.  All of its
//! behavior is a pure function of the operations applied, so a fixed
//! sequence of push and pop operations always yields the same paths.

use vstd::prelude::*;
use vstd::string::StrSliceExecFns;
use vstd::string::StringExecFns;

use crate::text::{chars_to_string, push_char, str_chars};

verus! {

/// The result of a lowercase conversion: `str::to_lowercase` maps
/// the characters of a string to their Unicode lowercase; the result
/// is a function of the characters alone.
pub uninterp spec fn lower_of(s: Seq<char>) -> Seq<char>;

/// The ASCII lowercase of a character: `A` through `Z` move to `a`
/// through `z`, everything else stays.
pub open spec fn ascii_lower(c: char) -> char {
    if 65 <= c as int <= 90 {
        (((c as int) + 32) as u8) as char
    } else {
        c
    }
}

/// Whether every character is ASCII.
pub open spec fn all_ascii(s: Seq<char>) -> bool {
    forall|i: int| 0 <= i < s.len() ==> ((#[trigger] s[i]) as int) < 128
}

/// Relies on `str::to_lowercase` of std: the Unicode lowercase of
/// the string, a function of its characters alone.  On ASCII text it
/// is the characterwise ASCII lowercase.
#[verifier::external_body]
fn to_lowercase(s: &str) -> (r: String)
    ensures
        r@ == lower_of(s@),
        all_ascii(s@) ==> r@ == s@.map_values(|c: char| ascii_lower(c)),
{
    s.to_lowercase()
}

/// Whether a character is kept in a slug: a dash or an ASCII letter
/// or digit.
pub open spec fn slug_keep(c: char) -> bool {
    c == '-' || (48 <= c as int && c as int <= 57) || (97 <= c as int && c as int <= 122) || (65
        <= c as int && c as int <= 90)
}

/// `s` with every `c++` replaced by `cpp`.
pub open spec fn cpp_replaced(s: Seq<char>) -> Seq<char>
    decreases s.len(),
{
    if s.len() >= 3 && s[0] == 'c' && s[1] == '+' && s[2] == '+' {
        seq!['c', 'p', 'p'] + cpp_replaced(s.skip(3))
    } else if s.len() > 0 {
        seq![s[0]] + cpp_replaced(s.skip(1))
    } else {
        Seq::empty()
    }
}

/// One step of slug assembly: whitespace ends a word; a kept
/// character is appended, preceded by a dash when it starts a new
/// word and output exists already.
pub open spec fn slug_step(out: Seq<char>, new_word: bool, c: char) -> (Seq<char>, bool) {
    if crate::directives::is_unicode_whitespace(c) {
        (out, true)
    } else if slug_keep(c) {
        if new_word && out.len() > 0 {
            (out + seq!['-'] + seq![c], false)
        } else {
            (out.push(c), false)
        }
    } else {
        (out, new_word)
    }
}

/// The slug assembly folded over the characters.
pub open spec fn slug_fold(s: Seq<char>) -> (Seq<char>, bool)
    decreases s.len(),
{
    if s.len() == 0 {
        (Seq::empty(), true)
    } else {
        let prev = slug_fold(s.drop_last());
        slug_step(prev.0, prev.1, s.last())
    }
}

/// The slug of a name: lowercase, `c++` replaced by `cpp`, only
/// dashes and ASCII letters and digits kept, words joined with
/// dashes; `null` when nothing remains.
pub open spec fn spec_slug(name: Seq<char>) -> Seq<char> {
    let folded = slug_fold(cpp_replaced(lower_of(name))).0;
    if folded.len() == 0 {
        seq!['n', 'u', 'l', 'l']
    } else {
        folded
    }
}

fn exec_cpp_replaced(chars: &Vec<char>) -> (r: Vec<char>)
    ensures
        r@ == cpp_replaced(chars@),
{
    let mut out: Vec<char> = Vec::new();
    let mut i: usize = 0;
    proof {
        assert(chars@.skip(0) =~= chars@);
    }
    while i < chars.len()
        invariant
            0 <= i <= chars@.len(),
            cpp_replaced(chars@) == out@ + cpp_replaced(chars@.skip(i as int)),
        decreases chars@.len() - i,
    {
        let ghost rest = chars@.skip(i as int);
        let ghost out0 = out@;
        if chars.len() - i > 2 && chars[i] == 'c' && chars[i + 1] == '+' && chars[i + 2] == '+' {
            out.push('c');
            out.push('p');
            out.push('p');
            proof {
                assert(rest.len() >= 3 && rest[0] == 'c' && rest[1] == '+' && rest[2] == '+');
                assert(cpp_replaced(rest) == seq!['c', 'p', 'p'] + cpp_replaced(rest.skip(3)));
                assert(rest.skip(3) =~= chars@.skip(i + 3));
                assert(out@ =~= out0 + seq!['c', 'p', 'p']);
                assert(out@ + cpp_replaced(chars@.skip(i + 3)) =~= out0 + cpp_replaced(rest));
            }
            i = i + 3;
        } else {
            let c = chars[i];
            out.push(c);
            proof {
                assert(rest.len() > 0 && rest[0] == c);
                assert(!(rest.len() >= 3 && rest[0] == 'c' && rest[1] == '+' && rest[2] == '+'));
                assert(cpp_replaced(rest) == seq![c] + cpp_replaced(rest.skip(1)));
                assert(rest.skip(1) =~= chars@.skip(i + 1));
                assert(out@ =~= out0 + seq![c]);
                assert(out@ + cpp_replaced(chars@.skip(i + 1)) =~= out0 + cpp_replaced(rest));
            }
            i = i + 1;
        }
    }
    proof {
        assert(chars@.skip(i as int).len() == 0);
        assert(cpp_replaced(chars@.skip(i as int)) =~= Seq::<char>::empty());
        assert(out@ + cpp_replaced(chars@.skip(i as int)) =~= out@);
    }
    out
}

fn exec_slug_keep(c: char) -> (r: bool)
    ensures
        r == slug_keep(c),
{
    let n = c as u32;
    c == '-' || (48 <= n && n <= 57) || (97 <= n && n <= 122) || (65 <= n && n <= 90)
}

/// Trims a string slice to only hold ASCII letters, digits and
/// dashes; if the result is empty, returns `null` instead.
pub fn slug(title: &str) -> (r: String)
    ensures
        r@ == spec_slug(title@),
{
    let lowered = to_lowercase(title);
    let lowered_chars = str_chars(lowered.as_str());
    let replaced = exec_cpp_replaced(&lowered_chars);
    let mut out: Vec<char> = Vec::new();
    let mut new_word: bool = true;
    let mut i: usize = 0;
    proof {
        assert(replaced@.take(0) =~= Seq::<char>::empty());
    }
    while i < replaced.len()
        invariant
            0 <= i <= replaced@.len(),
            (out@, new_word) == slug_fold(replaced@.take(i as int)),
        decreases replaced@.len() - i,
    {
        let c = replaced[i];
        proof {
            assert(replaced@.take(i + 1).drop_last() =~= replaced@.take(i as int));
            assert(replaced@.take(i + 1).last() == c);
        }
        if c.is_whitespace() {
            new_word = true;
        } else if exec_slug_keep(c) {
            if new_word && out.len() > 0 {
                out.push('-');
                out.push(c);
                proof {
                    assert(out@ =~= slug_fold(replaced@.take(i + 1)).0);
                }
            } else {
                out.push(c);
            }
            new_word = false;
        }
        i = i + 1;
    }
    proof {
        assert(replaced@.take(replaced@.len() as int) =~= replaced@);
    }
    if out.len() == 0 {
        let null_str = String::from_str("null");
        proof {
            reveal_strlit("null");
            assert(null_str@ =~= seq!['n', 'u', 'l', 'l']);
        }
        null_str
    } else {
        chars_to_string(out.as_slice())
    }
}

/// The decimal digits of `n`.
pub open spec fn dec_digits(n: int) -> Seq<char>
    decreases n,
{
    if n < 10 {
        seq![(((n % 10) + 48) as u8) as char]
    } else {
        dec_digits(n / 10).push((((n % 10) + 48) as u8) as char)
    }
}

pub fn format_usize(n: usize) -> (r: String)
    ensures
        r@ == dec_digits(n as int),
    decreases n,
{
    let digit: u8 = ((n % 10) as u8) + 48;
    let c: char = digit as char;
    if n < 10 {
        let mut s = String::new();
        push_char(&mut s, c);
        proof {
            assert(s@ =~= dec_digits(n as int));
        }
        s
    } else {
        let mut s = format_usize(n / 10);
        push_char(&mut s, c);
        proof {
            assert(s@ =~= dec_digits(n as int));
        }
        s
    }
}

/// The model of a path: its slug segments.
pub open spec fn segs_view(v: Seq<String>) -> Seq<Seq<char>> {
    v.map_values(|s: String| s@)
}

/// The model of the frequency table.
pub open spec fn freq_view(v: Seq<(Vec<String>, usize)>) -> Seq<(Seq<Seq<char>>, usize)> {
    v.map_values(|p: (Vec<String>, usize)| (segs_view(p.0@), p.1))
}

/// The count recorded for a path, or zero.
pub open spec fn freq_count(freq: Seq<(Seq<Seq<char>>, usize)>, key: Seq<Seq<char>>) -> int
    decreases freq.len(),
{
    if freq.len() == 0 {
        0
    } else if freq[0].0 == key {
        freq[0].1 as int
    } else {
        freq_count(freq.drop_first(), key)
    }
}

/// Whether the table holds an entry for the path.
pub open spec fn freq_has(freq: Seq<(Seq<Seq<char>>, usize)>, key: Seq<Seq<char>>) -> bool {
    exists|i: int| 0 <= i < freq.len() && (#[trigger] freq[i]).0 == key
}

/// The current path with its disambiguation counter applied: when
/// the path was produced before, its last segment gets a `-count`
/// suffix.
pub open spec fn spec_format(
    path: Seq<Seq<char>>,
    freq: Seq<(Seq<Seq<char>>, usize)>,
) -> Seq<Seq<char>> {
    let count = freq_count(freq, path);
    if count <= 0 || path.len() == 0 {
        path
    } else {
        path.update(path.len() - 1, path.last() + seq!['-'] + dec_digits(count))
    }
}

/// The segments joined with slashes.
pub open spec fn join_slash(segs: Seq<Seq<char>>) -> Seq<char>
    decreases segs.len(),
{
    if segs.len() == 0 {
        Seq::empty()
    } else if segs.len() == 1 {
        segs[0]
    } else {
        join_slash(segs.drop_last()) + seq!['/'] + segs.last()
    }
}

/// Mimics the push and pop of a path, so that the path never grows
/// past `max_depth`, every produced path is unique among those
/// produced so far, and the names are normalized to slugs.
///
/// The produced paths are a deterministic function of the sequence
/// of operations applied: each method's contract pins its result
/// and the new state exactly, over the builder's model.
#[derive(Debug)]
pub struct UniquePathBuilder {
    current_path: Vec<String>,
    current_depth: usize,
    max_depth: usize,
    frequency_map: Vec<(Vec<String>, usize)>,
}

impl UniquePathBuilder {
    /// The current path segments.
    pub closed spec fn path(&self) -> Seq<Seq<char>> {
        segs_view(self.current_path@)
    }

    /// The current depth.
    pub closed spec fn depth(&self) -> int {
        self.current_depth as int
    }

    /// The depth bound set at construction.
    pub closed spec fn bound(&self) -> int {
        self.max_depth as int
    }

    /// The frequency table.
    pub closed spec fn freq(&self) -> Seq<(Seq<Seq<char>>, usize)> {
        freq_view(self.frequency_map@)
    }

    /// A fresh builder with the given depth bound.
    pub fn new(max_depth: usize) -> (r: UniquePathBuilder)
        ensures
            r.path().len() == 0,
            r.depth() == 0,
            r.bound() == max_depth,
            r.freq().len() == 0,
    {
        let r = UniquePathBuilder {
            current_path: Vec::new(),
            current_depth: 0,
            max_depth,
            frequency_map: Vec::new(),
        };
        proof {
            assert(r.path() =~= Seq::<Seq<char>>::empty());
            assert(r.freq() =~= Seq::<(Seq<Seq<char>>, usize)>::empty());
        }
        r
    }

    fn format_path_with_counter(&self) -> (r: Vec<String>)
        ensures
            segs_view(r@) == spec_format(self.path(), self.freq()),
    {
        let count = self.lookup_count();
        if count == 0 || self.current_path.len() == 0 {
            let r = clone_segs(&self.current_path);
            return r;
        }
        let mut r = clone_segs(&self.current_path);
        proof {
            assert(r@.len() == segs_view(r@).len());
            assert(self.current_path@.len() == segs_view(self.current_path@).len());
        }
        let last_idx = r.len() - 1;
        let mut name = r[last_idx].clone();
        name.append("-");
        proof {
            reveal_strlit("-");
            assert("-"@ =~= seq!['-']);
        }
        let counter = format_usize(count);
        name.append(counter.as_str());
        r.set(last_idx, name);
        proof {
            assert(segs_view(r@) =~= spec_format(self.path(), self.freq()));
        }
        r
    }

    fn lookup_count(&self) -> (r: usize)
        ensures
            r as int == freq_count(self.freq(), self.path()),
    {
        proof {
            lemma_freq_count(self.freq(), self.path());
            assert(self.freq().skip(0) =~= self.freq());
        }
        let mut i: usize = 0;
        while i < self.frequency_map.len()
            invariant
                0 <= i <= self.frequency_map@.len(),
                forall|j: int| 0 <= j < i ==> (#[trigger] self.freq()[j]).0 != self.path(),
                freq_count(self.freq(), self.path()) == freq_count(
                    self.freq().skip(i as int),
                    self.path(),
                ),
            decreases self.frequency_map@.len() - i,
        {
            if segs_eq(&self.frequency_map[i].0, &self.current_path) {
                proof {
                    assert(self.freq()[i as int].0 == self.path());
                    assert(self.freq().skip(i as int)[0] == self.freq()[i as int]);
                }
                return self.frequency_map[i].1;
            }
            proof {
                assert(self.freq()[i as int]
                    == (segs_view(self.frequency_map@[i as int].0@), self.frequency_map@[i as int].1));
                assert(self.freq().skip(i as int)[0] == self.freq()[i as int]);
                assert(self.freq().skip(i as int).drop_first() =~= self.freq().skip(i + 1));
            }
            i = i + 1;
        }
        proof {
            assert(self.freq().skip(i as int).len() == 0);
        }
        0
    }

    /// The current output path, with the `pot` extension.  With a
    /// zero bound or at depth zero it is the default `messages.pot`;
    /// otherwise the disambiguated segments joined with slashes.
    pub fn get(&self) -> (r: String)
        ensures
            self.bound() == 0 || self.depth() == 0 ==> r@ == "messages.pot"@,
            !(self.bound() == 0 || self.depth() == 0) ==> r@ == join_slash(
                spec_format(self.path(), self.freq()),
            ) + ".pot"@,
    {
        if self.max_depth == 0 || self.current_depth == 0 {
            return String::from_str("messages.pot");
        }
        let formatted = self.format_path_with_counter();
        let mut out = String::new();
        let mut i: usize = 0;
        while i < formatted.len()
            invariant
                0 <= i <= formatted@.len(),
                out@ == join_slash(segs_view(formatted@).take(i as int)),
            decreases formatted@.len() - i,
        {
            if i > 0 {
                out.append("/");
                proof {
                    reveal_strlit("/");
                    assert("/"@ =~= seq!['/']);
                }
            }
            out.append(formatted[i].as_str());
            proof {
                let sv = segs_view(formatted@);
                assert(sv.take(i + 1).drop_last() =~= sv.take(i as int));
                assert(sv.take(i + 1).last() == sv[i as int]);
                assert(sv[i as int] == formatted@[i as int]@);
            }
            i = i + 1;
        }
        proof {
            assert(segs_view(formatted@).take(formatted@.len() as int) =~= segs_view(
                formatted@,
            ));
        }
        out.append(".pot");
        out
    }

    /// Enter a path component.  Past the depth bound only the depth
    /// moves; otherwise the current path is replaced by its
    /// disambiguated form, the slug of `s` is appended, and the
    /// frequency of the new path is bumped.
    pub fn push(&mut self, s: &str)
        ensures
            final(self).bound() == old(self).bound(),
            final(self).depth() == if old(self).depth() < usize::MAX {
                old(self).depth() + 1
            } else {
                old(self).depth()
            },
            final(self).depth() > old(self).bound() ==> final(self).path() == old(self).path()
                && final(self).freq() == old(self).freq(),
            final(self).depth() <= old(self).bound() ==> final(self).path() == spec_format(
                old(self).path(),
                old(self).freq(),
            ).push(spec_slug(s@)) && final(self).freq() == spec_bump(
                old(self).freq(),
                spec_format(old(self).path(), old(self).freq()).push(spec_slug(s@)),
            ),
    {
        self.current_depth = if self.current_depth < usize::MAX {
            self.current_depth + 1
        } else {
            self.current_depth
        };
        if self.current_depth > self.max_depth {
            return ;
        }
        let mut formatted = self.format_path_with_counter();
        let ghost base = segs_view(formatted@);
        let slugged = slug(s);
        formatted.push(slugged);
        proof {
            assert(segs_view(formatted@) =~= base.push(spec_slug(s@)));
        }
        self.current_path = formatted;
        self.bump_frequency();
    }

    fn bump_frequency(&mut self)
        ensures
            final(self).current_path == old(self).current_path,
            final(self).current_depth == old(self).current_depth,
            final(self).max_depth == old(self).max_depth,
            final(self).freq() == spec_bump(old(self).freq(), old(self).path()),
    {
        let ghost pre = self.freq();
        let ghost key = self.path();
        let mut i: usize = 0;
        while i < self.frequency_map.len()
            invariant
                0 <= i <= self.frequency_map@.len(),
                *self == *old(self),
                pre == self.freq(),
                key == self.path(),
                forall|j: int| 0 <= j < i ==> (#[trigger] pre[j]).0 != key,
            decreases self.frequency_map@.len() - i,
        {
            if segs_eq(&self.frequency_map[i].0, &self.current_path) {
                proof {
                    assert(pre[i as int].0 == key);
                    lemma_spec_bump_found(pre, key, i as int);
                }
                let cnt = self.frequency_map[i].1;
                let entry_key = clone_segs(&self.frequency_map[i].0);
                if cnt < usize::MAX {
                    self.frequency_map.set(i, (entry_key, cnt + 1));
                } else {
                    self.frequency_map.set(i, (entry_key, cnt));
                }
                proof {
                    assert(self.freq() =~= spec_bump(pre, key));
                }
                return ;
            }
            proof {
                assert(pre[i as int] == (segs_view(self.frequency_map@[i as int].0@),
                self.frequency_map@[i as int].1));
            }
            i = i + 1;
        }
        let fresh_key = clone_segs(&self.current_path);
        self.frequency_map.push((fresh_key, 0));
        proof {
            lemma_spec_bump_missing(pre, key);
            assert(self.freq() =~= spec_bump(pre, key));
        }
    }

    /// Leave a path component.  Within the depth bound the last
    /// segment is removed; at depth zero nothing happens.
    pub fn pop(&mut self)
        ensures
            final(self).bound() == old(self).bound(),
            final(self).freq() == old(self).freq(),
            old(self).depth() == 0 ==> *final(self) == *old(self),
            old(self).depth() > 0 ==> final(self).depth() == old(self).depth() - 1,
            old(self).depth() > 0 && old(self).depth() <= old(self).bound() ==> (final(self).path()
                == old(self).path().drop_last() || (old(self).path().len() == 0 && final(
                self).path().len() == 0)),
            old(self).depth() > old(self).bound() ==> final(self).path() == old(self).path(),
    {
        if self.current_depth == 0 {
            return ;
        }
        if self.current_depth <= self.max_depth {
            let ghost pre = self.path();
            if self.current_path.len() > 0 {
                self.current_path.pop();
                proof {
                    assert(self.path() =~= pre.drop_last());
                }
            }
        }
        self.current_depth = self.current_depth - 1;
    }
}

/// The frequency table with the count of `key` bumped: an existing
/// entry is incremented, a new entry starts at zero.
pub open spec fn spec_bump(
    freq: Seq<(Seq<Seq<char>>, usize)>,
    key: Seq<Seq<char>>,
) -> Seq<(Seq<Seq<char>>, usize)>
    decreases freq.len(),
{
    if freq.len() == 0 {
        seq![(key, 0usize)]
    } else if freq[0].0 == key {
        seq![(key, if freq[0].1 < usize::MAX { (freq[0].1 + 1) as usize } else { freq[0].1 })]
            + freq.drop_first()
    } else {
        seq![freq[0]] + spec_bump(freq.drop_first(), key)
    }
}

proof fn lemma_freq_count(freq: Seq<(Seq<Seq<char>>, usize)>, key: Seq<Seq<char>>)
    ensures
        freq_count(freq, key) >= 0,
    decreases freq.len(),
{
    if freq.len() > 0 && freq[0].0 != key {
        lemma_freq_count(freq.drop_first(), key);
    }
}

proof fn lemma_spec_bump_found(freq: Seq<(Seq<Seq<char>>, usize)>, key: Seq<Seq<char>>, i: int)
    requires
        0 <= i < freq.len(),
        freq[i].0 == key,
        forall|j: int| 0 <= j < i ==> (#[trigger] freq[j]).0 != key,
    ensures
        spec_bump(freq, key) =~= freq.update(
            i,
            (
                key,
                if freq[i].1 < usize::MAX {
                    (freq[i].1 + 1) as usize
                } else {
                    freq[i].1
                },
            ),
        ),
    decreases freq.len(),
{
    if i == 0 {
        assert(spec_bump(freq, key) == seq![
            (
                key,
                if freq[0].1 < usize::MAX {
                    (freq[0].1 + 1) as usize
                } else {
                    freq[0].1
                },
            ),
        ] + freq.drop_first());
    } else {
        assert(freq[0].0 != key);
        lemma_spec_bump_found(freq.drop_first(), key, i - 1);
        assert(freq.drop_first().update(
            i - 1,
            (
                key,
                if freq[i].1 < usize::MAX {
                    (freq[i].1 + 1) as usize
                } else {
                    freq[i].1
                },
            ),
        ) =~= freq.update(
            i,
            (
                key,
                if freq[i].1 < usize::MAX {
                    (freq[i].1 + 1) as usize
                } else {
                    freq[i].1
                },
            ),
        ).drop_first());
    }
}

proof fn lemma_spec_bump_missing(freq: Seq<(Seq<Seq<char>>, usize)>, key: Seq<Seq<char>>)
    requires
        forall|j: int| 0 <= j < freq.len() ==> (#[trigger] freq[j]).0 != key,
    ensures
        spec_bump(freq, key) =~= freq.push((key, 0usize)),
    decreases freq.len(),
{
    if freq.len() > 0 {
        assert forall|j: int| 0 <= j < freq.drop_first().len() implies (#[trigger] freq.drop_first()[j]).0
            != key by {
            assert(freq[j + 1].0 != key);
        }
        lemma_spec_bump_missing(freq.drop_first(), key);
        assert(seq![freq[0]] + freq.drop_first().push((key, 0usize)) =~= freq.push((key, 0usize)));
    }
}

fn clone_segs(v: &Vec<String>) -> (r: Vec<String>)
    ensures
        segs_view(r@) == segs_view(v@),
{
    let mut r: Vec<String> = Vec::new();
    let mut i: usize = 0;
    while i < v.len()
        invariant
            0 <= i <= v@.len(),
            r@.len() == i,
            forall|j: int| 0 <= j < i ==> r@[j]@ == v@[j]@,
        decreases v@.len() - i,
    {
        r.push(v[i].clone());
        i = i + 1;
    }
    proof {
        assert(segs_view(r@) =~= segs_view(v@));
    }
    r
}

fn segs_eq(a: &Vec<String>, b: &Vec<String>) -> (r: bool)
    ensures
        r == (segs_view(a@) == segs_view(b@)),
{
    if a.len() != b.len() {
        proof {
            assert(segs_view(a@).len() != segs_view(b@).len());
        }
        return false;
    }
    let mut i: usize = 0;
    while i < a.len()
        invariant
            0 <= i <= a@.len(),
            a@.len() == b@.len(),
            forall|j: int| 0 <= j < i ==> (#[trigger] segs_view(a@)[j]) == segs_view(b@)[j],
        decreases a@.len() - i,
    {
        if !a[i].eq(&b[i]) {
            proof {
                assert(segs_view(a@)[i as int] == a@[i as int]@);
                assert(segs_view(b@)[i as int] == b@[i as int]@);
            }
            return false;
        }
        proof {
            assert(segs_view(a@)[i as int] == a@[i as int]@);
            assert(segs_view(b@)[i as int] == b@[i as int]@);
        }
        i = i + 1;
    }
    proof {
        assert(segs_view(a@) =~= segs_view(b@));
    }
    true
}

} // verus!
