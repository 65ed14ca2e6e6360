//! Normalize the Markdown of an existing catalog.
//!
//! A catalog written by an older extractor may hold entries that the
//! current extractor would split or render differently.  Each entry's
//! msgid and msgstr are run through the current extraction pipeline
//! and re-paired; when the two sides split into different numbers of
//! messages the results are marked fuzzy.

use vstd::prelude::*;
use vstd::string::StrSliceExecFns;
use vstd::string::StringExecFns;

use crate::catalog::{Catalog, Message, MessageFlags, catalog_wf, str_eq};
use crate::directives::is_unicode_whitespace;
use crate::events::{MdEvent, MdLinkType, MdTag, events_view};
use crate::messages::extract_messages;
use crate::render::ReconstructError;
use crate::text::{push_char, str_chars, wrap_sources};

verus! {

/// Whether every character is an ASCII digit.
pub open spec fn all_digits(s: Seq<char>) -> bool {
    forall|i: int| 0 <= i < s.len() ==> 48 <= (#[trigger] s[i]) as int <= 57
}

/// The number the digits denote.
pub open spec fn dec_value(s: Seq<char>) -> int
    decreases s.len(),
{
    if s.len() == 0 {
        0
    } else {
        dec_value(s.drop_last()) * 10 + (s.last() as int - 48)
    }
}

/// The position of the first colon, or the length.
pub open spec fn first_colon(s: Seq<char>, i: int) -> int
    decreases s.len() - i,
{
    if i < 0 || i >= s.len() || s[i] == ':' {
        i
    } else {
        first_colon(s, i + 1)
    }
}

fn is_ascii_digit_char(c: char) -> (r: bool)
    ensures
        r == (48 <= c as int <= 57),
{
    let n = c as u32;
    48 <= n && n <= 57
}

proof fn lemma_dec_value_nonneg(s: Seq<char>)
    requires
        all_digits(s),
    ensures
        dec_value(s) >= 0,
    decreases s.len(),
{
    if s.len() > 0 {
        assert(all_digits(s.drop_last())) by {
            assert forall|i: int| 0 <= i < s.drop_last().len() implies 48 <= (#[trigger] s.drop_last()[i]) as int <= 57 by {
                assert(s.drop_last()[i] == s[i]);
            }
        }
        lemma_dec_value_nonneg(s.drop_last());
        assert(s.last() as int >= 48);
    }
}

proof fn lemma_dec_value_prefix(s: Seq<char>, k: int)
    requires
        all_digits(s),
        0 <= k <= s.len(),
    ensures
        dec_value(s) >= dec_value(s.take(k)),
    decreases s.len() - k,
{
    if k < s.len() {
        lemma_dec_value_prefix(s, k + 1);
        assert(s.take(k + 1).drop_last() =~= s.take(k));
        assert(all_digits(s.take(k))) by {
            assert forall|i: int| 0 <= i < k implies 48 <= (#[trigger] s.take(k)[i]) as int <= 57 by {
                assert(s.take(k)[i] == s[i]);
            }
        }
        lemma_dec_value_nonneg(s.take(k));
        assert(dec_value(s.take(k + 1)) == dec_value(s.take(k)) * 10 + (s.take(k + 1).last() as int
            - 48));
        assert(s.take(k + 1).last() == s[k]);
        assert(dec_value(s.take(k)) * 10 + (s[k] as int - 48) >= dec_value(s.take(k))) by (
        nonlinear_arith)
            requires
                dec_value(s.take(k)) >= 0,
                48 <= s[k] as int,
        ;
    } else {
        assert(s.take(k) =~= s);
    }
}

fn parse_usize(s: &str) -> (r: Option<usize>)
    ensures
        r matches Some(v) ==> s@.len() > 0 && all_digits(s@) && v as int == dec_value(s@),
        r is None ==> s@.len() == 0 || !all_digits(s@) || dec_value(s@) > usize::MAX,
{
    let chars = str_chars(s);
    if chars.len() == 0 {
        return None;
    }
    let mut value: usize = 0;
    let mut i: usize = 0;
    while i < chars.len()
        invariant
            0 <= i <= chars@.len(),
            chars@ == s@,
            all_digits(s@.take(i as int)),
            value as int == dec_value(s@.take(i as int)),
        decreases chars@.len() - i,
    {
        let c = chars[i];
        if !is_ascii_digit_char(c) {
            proof {
                assert(!(48 <= (s@[i as int]) as int <= 57));
                assert(!all_digits(s@));
            }
            return None;
        }
        let n = c as u32;
        let digit: usize = (n - 48) as usize;
        proof {
            assert(digit as int == c as int - 48) by {
                assert(48 <= c as int <= 57);
            }
        }
        if value > (usize::MAX - digit) / 10 {
            proof {
                if all_digits(s@) {
                    assert(s@.take(i + 1).drop_last() =~= s@.take(i as int));
                    assert(s@.take(i + 1).last() == c);
                    assert(dec_value(s@.take(i + 1)) == value * 10 + (c as int - 48));
                    assert(value * 10 + digit > usize::MAX) by (nonlinear_arith)
                        requires
                            value > (usize::MAX - digit) / 10,
                            0 <= digit < 10,
                            value >= 0,
                    ;
                    lemma_dec_value_prefix(s@, i + 1);
                }
            }
            return None;
        }
        proof {
            assert(s@.take(i + 1).drop_last() =~= s@.take(i as int));
            assert(s@.take(i + 1).last() == c);
            assert forall|j: int| 0 <= j < i + 1 implies 48 <= (#[trigger] s@.take(i + 1)[j]) as int
                <= 57 by {
                if j < i {
                    assert(s@.take(i as int)[j] == s@.take(i + 1)[j]);
                    assert(48 <= s@.take(i as int)[j] as int <= 57);
                } else {
                    assert(s@.take(i + 1)[j] == c);
                }
            }
            assert(all_digits(s@.take(i + 1))) by {
                assert forall|j: int| 0 <= j < s@.take(i + 1).len() implies 48 <= (#[trigger] s@.take(
                    i + 1,
                )[j]) as int <= 57 by {
                    if j < i {
                        assert(s@.take(i as int)[j] == s@.take(i + 1)[j]);
                        assert(48 <= s@.take(i as int)[j] as int <= 57);
                    } else {
                        assert(s@.take(i + 1)[j] == c);
                    }
                }
            }
        }
        value = value * 10 + digit;
        i = i + 1;
    }
    proof {
        assert(s@.take(chars@.len() as int) =~= s@);
    }
    Some(value)
}

/// Split a `path:line` token into its path and its line number.
pub fn parse_source(source: &str) -> (r: Option<(&str, usize)>)
    ensures
        r matches Some(p) ==> {
            &&& first_colon(source@, 0) < source@.len()
            &&& p.0@ == source@.take(first_colon(source@, 0))
            &&& source@.skip(first_colon(source@, 0) + 1).len() > 0
            &&& all_digits(source@.skip(first_colon(source@, 0) + 1))
            &&& p.1 as int == dec_value(source@.skip(first_colon(source@, 0) + 1))
        },
        r is None ==> first_colon(source@, 0) == source@.len() || ({
            let rest = source@.skip(first_colon(source@, 0) + 1);
            rest.len() == 0 || !all_digits(rest) || dec_value(rest) > usize::MAX
        }),
{
    let len: usize = source.unicode_len();
    let mut i: usize = 0;
    while i < len && source.get_char(i) != ':'
        invariant
            0 <= i <= len,
            len == source@.len(),
            first_colon(source@, 0) == first_colon(source@, i as int),
        decreases len - i,
    {
        i = i + 1;
    }
    if i == len {
        return None;
    }
    let path: &str = source.substring_char(0, i);
    let rest: &str = source.substring_char(i + 1, len);
    match parse_usize(rest) {
        Some(v) => Some((path, v)),
        None => None,
    }
}

/// The texts of the extracted messages, keeping line numbers only.
pub open spec fn spec_doc_messages(msgs: Seq<(usize, Seq<char>, Seq<char>)>) -> Seq<
    (usize, Seq<char>),
> {
    msgs.map_values(|t: (usize, Seq<char>, Seq<char>)| (t.0, t.1))
}

/// The view of a line-and-text list.
pub open spec fn doc_messages_view(s: Seq<(usize, String)>) -> Seq<(usize, Seq<char>)> {
    s.map_values(|p: (usize, String)| (p.0, p.1@))
}

/// The messages of a document, keeping only line numbers and text.
/// For documents without code blocks the result is pinned exactly
/// by the extraction fold.
pub fn extract_document_messages(doc: &str) -> (r: Result<Vec<(usize, String)>, ReconstructError>)
    ensures
        !crate::groups::has_code_block(crate::parse::extraction_of(doc@)) ==> ({
            let gs = crate::groups::model_groups(
                crate::parse::extraction_of(doc@),
                0,
                0,
                false,
                false,
                Seq::empty(),
            );
            match crate::messages::spec_extracted(gs, 0, Seq::empty()) {
                None => r is Err,
                Some(msgs) => r matches Ok(v) && doc_messages_view(v@) == spec_doc_messages(msgs),
            }
        }),
{
    let extracted = match extract_messages(doc) {
        Ok(e) => e,
        Err(e) => {
            return Err(e);
        },
    };
    let ghost msgs = crate::messages::messages_view(extracted@);
    let mut out: Vec<(usize, String)> = Vec::new();
    let mut i: usize = 0;
    proof {
        assert(doc_messages_view(out@) =~= Seq::<(usize, Seq<char>)>::empty());
        assert(spec_doc_messages(msgs).take(0) =~= Seq::<(usize, Seq<char>)>::empty());
    }
    while i < extracted.len()
        invariant
            0 <= i <= extracted@.len(),
            msgs == crate::messages::messages_view(extracted@),
            doc_messages_view(out@) == spec_doc_messages(msgs).take(i as int),
        decreases extracted@.len() - i,
    {
        let ghost out0 = out@;
        let lineno: usize = extracted[i].0;
        out.push((lineno, extracted[i].1.message.clone()));
        proof {
            assert(out@ == out0.push((lineno, out@.last().1)));
            assert(out@.last().1@ == extracted@[i as int].1.message@);
            assert(msgs[i as int] == (extracted@[i as int].0, extracted@[i as int].1.message@,
            extracted@[i as int].1.comment@));
            assert(spec_doc_messages(msgs).len() == extracted@.len());
            assert(doc_messages_view(out0).len() == out0.len());
            assert(out0.len() == i);
            assert(out@.len() == i + 1);
            assert forall|j: int|
                0 <= j < out@.len() implies doc_messages_view(out@)[j] == spec_doc_messages(
                msgs,
            ).take(i + 1)[j] by {
                assert(doc_messages_view(out@)[j] == (out@[j].0, out@[j].1@));
                if j < out0.len() {
                    assert(out@[j] == out0[j]);
                    assert(doc_messages_view(out0)[j] == (out0[j].0, out0[j].1@));
                    assert(doc_messages_view(out0)[j] == spec_doc_messages(msgs).take(
                        i as int,
                    )[j]);
                } else {
                    assert(spec_doc_messages(msgs)[j] == (msgs[j].0, msgs[j].1));
                }
            }
            assert(doc_messages_view(out@) =~= spec_doc_messages(msgs).take(i + 1));
        }
        i = i + 1;
    }
    proof {
        assert(spec_doc_messages(msgs).take(extracted@.len() as int) =~= spec_doc_messages(msgs));
    }
    Ok(out)
}

/// The first whitespace character at or after `i`, or the length.
pub open spec fn first_ws(s: Seq<char>, i: int) -> int
    decreases s.len() - i,
{
    if i < 0 || i >= s.len() || is_unicode_whitespace(s[i]) {
        i
    } else {
        first_ws(s, i + 1)
    }
}

proof fn lemma_first_ws_props(s: Seq<char>, i: int)
    requires
        0 <= i <= s.len(),
    ensures
        i <= first_ws(s, i) <= s.len(),
        forall|m: int| i <= m < first_ws(s, i) ==> !is_unicode_whitespace(s[m]),
        first_ws(s, i) < s.len() ==> is_unicode_whitespace(s[first_ws(s, i)]),
    decreases s.len() - i,
{
    if i < s.len() && !is_unicode_whitespace(s[i]) {
        lemma_first_ws_props(s, i + 1);
    }
}

/// The whitespace-separated tokens of `s` from position `i` on.
pub open spec fn ws_tokens_from(s: Seq<char>, i: int) -> Seq<Seq<char>>
    decreases s.len() - i,
{
    if i < 0 || i >= s.len() {
        Seq::empty()
    } else if is_unicode_whitespace(s[i]) {
        ws_tokens_from(s, i + 1)
    } else {
        let e = first_ws(s, i);
        if i < e <= s.len() {
            seq![s.subrange(i, e)] + ws_tokens_from(s, e)
        } else {
            Seq::empty()
        }
    }
}

/// The whitespace-separated tokens of `s`.
pub open spec fn ws_tokens(s: Seq<char>) -> Seq<Seq<char>> {
    ws_tokens_from(s, 0)
}

/// The whitespace-separated tokens of `s`.
pub fn split_whitespace_tokens(s: &str) -> (r: Vec<String>)
    ensures
        r@.map_values(|t: String| t@) == ws_tokens(s@),
{
    let chars = str_chars(s);
    let mut out: Vec<String> = Vec::new();
    let mut i: usize = 0;
    proof {
        assert(out@.map_values(|t: String| t@) + ws_tokens_from(s@, 0) =~= ws_tokens(s@));
    }
    while i < chars.len()
        invariant
            0 <= i <= chars@.len(),
            chars@ == s@,
            ws_tokens(s@) == out@.map_values(|t: String| t@) + ws_tokens_from(s@, i as int),
        decreases chars@.len() - i,
    {
        let ghost prev = out@.map_values(|t: String| t@);
        if chars[i].is_whitespace() {
            proof {
                assert(ws_tokens_from(s@, i as int) == ws_tokens_from(s@, i + 1));
            }
            i = i + 1;
        } else {
            let ghost start = i as int;
            let mut word = String::new();
            while i < chars.len() && !chars[i].is_whitespace()
                invariant
                    0 <= start <= i <= chars@.len(),
                    chars@ == s@,
                    i == start ==> !is_unicode_whitespace(chars@[start]),
                    word@ == s@.subrange(start, i as int),
                    forall|m: int| start <= m < i ==> !is_unicode_whitespace(s@[m]),
                decreases chars@.len() - i,
            {
                push_char(&mut word, chars[i]);
                proof {
                    assert(word@ =~= s@.subrange(start, i + 1));
                }
                i = i + 1;
            }
            proof {
                assert(i > start);
                lemma_first_ws_props(s@, start);
                if first_ws(s@, start) < i {
                    assert(!is_unicode_whitespace(s@[first_ws(s@, start)]));
                    assert(is_unicode_whitespace(s@[first_ws(s@, start)]));
                }
                if (i as int) < first_ws(s@, start) {
                    assert(!is_unicode_whitespace(s@[i as int]));
                }
                assert(first_ws(s@, start) == i as int);
                assert(ws_tokens_from(s@, start) == seq![s@.subrange(start, i as int)]
                    + ws_tokens_from(s@, i as int));
            }
            out.push(word);
            proof {
                assert(out@.map_values(|t: String| t@) =~= prev.push(
                    s@.subrange(start, i as int),
                ));
                assert(prev + (seq![s@.subrange(start, i as int)] + ws_tokens_from(
                    s@,
                    i as int,
                )) =~= prev.push(s@.subrange(start, i as int)) + ws_tokens_from(s@, i as int));
            }
        }
    }
    proof {
        assert(ws_tokens_from(s@, i as int) =~= Seq::<Seq<char>>::empty());
        assert(out@.map_values(|t: String| t@) + Seq::<Seq<char>>::empty() =~= out@.map_values(
            |t: String| t@,
        ));
    }
    out
}

/// One shifted `path:line` token: its line number moved by `delta`
/// when it has the token shape and the shift stays in range; a
/// token without the shape is replaced by the whole source field.
pub open spec fn shift_token(full: Seq<char>, tok: Seq<char>, delta: int) -> Seq<char> {
    let c = first_colon(tok, 0);
    let rest = tok.skip(c + 1);
    if c < tok.len() && rest.len() > 0 && all_digits(rest) && dec_value(rest) <= usize::MAX {
        tok.take(c) + seq![':'] + crate::paths::dec_digits(
            if dec_value(rest) + delta <= usize::MAX {
                dec_value(rest) + delta
            } else {
                dec_value(rest)
            },
        )
    } else {
        full
    }
}

/// Every token of `s` shifted by `delta`, joined on new lines.
pub open spec fn shifted_sources(s: Seq<char>, delta: int) -> Seq<char> {
    crate::xgettext::join_nl(
        ws_tokens(s).map_values(|t: Seq<char>| shift_token(s, t, delta)),
    )
}

/// Shift the line number of every `path:line` token of `source` by
/// `delta`, and re-wrap the result at the gettext column.
pub fn compute_source(source: &str, delta: usize) -> (r: String)
    ensures
        r@ == crate::text::refilled(shifted_sources(source@, delta as int), 76),
{
    let tokens = split_whitespace_tokens(source);
    let ghost shifted_all = ws_tokens(source@).map_values(
        |t: Seq<char>| shift_token(source@, t, delta as int),
    );
    let mut new_source = String::new();
    let mut first = true;
    let mut i: usize = 0;
    proof {
        assert(shifted_all.take(0) =~= Seq::<Seq<char>>::empty());
    }
    while i < tokens.len()
        invariant
            0 <= i <= tokens@.len(),
            tokens@.map_values(|t: String| t@) == ws_tokens(source@),
            shifted_all == ws_tokens(source@).map_values(
                |t: Seq<char>| shift_token(source@, t, delta as int),
            ),
            first <==> i == 0,
            new_source@ == crate::xgettext::join_nl(shifted_all.take(i as int)),
        decreases tokens@.len() - i,
    {
        let ghost piece = shifted_all[i as int];
        proof {
            assert(shifted_all.take(i + 1).drop_last() =~= shifted_all.take(i as int));
            assert(shifted_all.take(i + 1).last() == piece);
            assert(ws_tokens(source@)[i as int] == tokens@[i as int]@);
        }
        if !first {
            new_source.append("\n");
            proof {
                reveal_strlit("\n");
                assert("\n"@ =~= seq!['\n']);
            }
        }
        first = false;
        match parse_source(tokens[i].as_str()) {
            Some((path, lineno)) => {
                new_source.append(path);
                new_source.append(":");
                proof {
                    reveal_strlit(":");
                    assert(":"@ =~= seq![':']);
                }
                let shifted: usize = if lineno <= usize::MAX - delta {
                    lineno + delta
                } else {
                    lineno
                };
                let digits = crate::paths::format_usize(shifted);
                new_source.append(digits.as_str());
                proof {
                    let tok = tokens@[i as int]@;
                    let c = first_colon(tok, 0);
                    let rest = tok.skip(c + 1);
                    assert(path@ == tok.take(c));
                    assert(lineno as int == dec_value(rest));
                    assert(rest.len() > 0 && all_digits(rest));
                    assert(piece == tok.take(c) + seq![':'] + crate::paths::dec_digits(
                        if dec_value(rest) + delta <= usize::MAX {
                            dec_value(rest) + delta
                        } else {
                            dec_value(rest)
                        },
                    ));
                    assert(digits@ == crate::paths::dec_digits(shifted as int));
                }
            },
            None => {
                new_source.append(source);
                proof {
                    let tok = tokens@[i as int]@;
                    let c = first_colon(tok, 0);
                    let rest = tok.skip(c + 1);
                    assert(!(c < tok.len() && rest.len() > 0 && all_digits(rest) && dec_value(
                        rest,
                    ) <= usize::MAX)) by {
                        if c < tok.len() && rest.len() > 0 && all_digits(rest) && dec_value(rest)
                            <= usize::MAX {
                            assert(first_colon(tok, 0) == tok.len() || rest.len() == 0
                                || !all_digits(rest) || dec_value(rest) > usize::MAX);
                        }
                    }
                    assert(piece == source@);
                }
            },
        }
        i = i + 1;
    }
    proof {
        assert(shifted_all.take(tokens@.len() as int) =~= shifted_all);
    }
    wrap_sources(new_source.as_str())
}

/// Whether an event is a link whose definition was missing and had
/// to be resolved by the parser's callback.
pub open spec fn is_broken_link_event(e: crate::events::MdEventS) -> bool {
    match e {
        crate::events::MdEventS::Start(crate::events::MdTagS::Link { link_type, .. }) => {
            link_type is ReferenceUnknown || link_type is CollapsedUnknown
                || link_type is ShortcutUnknown
        },
        _ => false,
    }
}

/// Whether the text holds a reference, collapsed or shortcut link
/// whose definition is missing from the text itself.
pub open spec fn spec_has_broken_link(s: Seq<char>) -> bool {
    exists|i: int|
        0 <= i < crate::parse::parsed_at_offsets_resolving(s).len() && is_broken_link_event(
            (#[trigger] crate::parse::parsed_at_offsets_resolving(s)[i]).1,
        )
}

/// Whether the text holds a reference, collapsed or shortcut link
/// whose definition is missing from the text itself.
pub fn has_broken_link(text: &str) -> (r: bool)
    ensures
        r == spec_has_broken_link(text@),
{
    let events = crate::parse::parse_at_offsets_resolving(text);
    let ghost parsed = crate::parse::parsed_at_offsets_resolving(text@);
    let mut i: usize = 0;
    while i < events.len()
        invariant
            0 <= i <= events@.len(),
            parsed == crate::parse::parsed_at_offsets_resolving(text@),
            events_view(events@) == parsed,
            forall|k: int| 0 <= k < i ==> !is_broken_link_event((#[trigger] parsed[k]).1),
        decreases events@.len() - i,
    {
        proof {
            assert(parsed[i as int] == crate::events::pos_event_view(events@[i as int]));
        }
        match &events[i].1 {
            MdEvent::Start(MdTag::Link { link_type, .. }) => {
                let broken = match link_type {
                    MdLinkType::ReferenceUnknown => true,
                    MdLinkType::CollapsedUnknown => true,
                    MdLinkType::ShortcutUnknown => true,
                    _ => false,
                };
                if broken {
                    proof {
                        assert(is_broken_link_event(parsed[i as int].1));
                        assert(crate::parse::parsed_at_offsets_resolving(text@)[i as int]
                            == parsed[i as int]);
                        assert(spec_has_broken_link(text@));
                    }
                    return true;
                }
            },
            _ => {},
        }
        i = i + 1;
    }
    false
}

/// Which field of a message an operation reads.
#[derive(Clone, Copy, Debug)]
pub enum MessageField {
    Msgid,
    Msgstr,
}

/// The number of newlines of `s`.
pub open spec fn nl_count(s: Seq<char>) -> int
    decreases s.len(),
{
    if s.len() == 0 {
        0
    } else {
        nl_count(s.drop_last()) + if s.last() == '\n' {
            1int
        } else {
            0int
        }
    }
}

/// The number of lines of `s`: its newlines, plus one when the last
/// line lacks a terminator, saturating at the machine limit.
pub open spec fn spec_count_lines(s: Seq<char>) -> int {
    let c = nl_count(s) + if s.len() > 0 && s.last() != '\n' {
        1int
    } else {
        0int
    };
    if c > usize::MAX {
        usize::MAX as int
    } else {
        c
    }
}

/// The view of one source path's message list.
pub open spec fn entry_list_view(v: Seq<(usize, String, String)>) -> Seq<
    (usize, Seq<char>, Seq<char>),
> {
    v.map_values(|p: (usize, String, String)| (p.0, p.1@, p.2@))
}

/// The message list of the first map entry with the given path, or
/// empty when no entry carries it.
pub open spec fn path_list(
    entries: Seq<(String, Vec<(usize, String, String)>)>,
    path: Seq<char>,
    i: int,
) -> Seq<(usize, Seq<char>, Seq<char>)>
    decreases entries.len() - i,
{
    if i < 0 || i >= entries.len() {
        Seq::empty()
    } else if entries[i].0@ == path {
        entry_list_view(entries[i].1@)
    } else {
        path_list(entries, path, i + 1)
    }
}

/// The repair document grown from `acc`: every listed message of
/// the same field whose text differs from `doc` is glued on with a
/// blank line.
pub open spec fn sibling_fold(
    acc: Seq<char>,
    doc: Seq<char>,
    list: Seq<(usize, Seq<char>, Seq<char>)>,
    field: MessageField,
    i: int,
) -> Seq<char>
    decreases list.len() - i,
{
    if i < 0 || i >= list.len() {
        acc
    } else {
        let m = if field is Msgid {
            list[i].1
        } else {
            list[i].2
        };
        sibling_fold(
            if m == doc {
                acc
            } else {
                acc + seq!['\n', '\n'] + m
            },
            doc,
            list,
            field,
            i + 1,
        )
    }
}

/// The view of the supplied file contents.
pub open spec fn extras_view(v: Seq<(String, String)>) -> Seq<(Seq<char>, Seq<char>)> {
    v.map_values(|p: (String, String)| (p.0@, p.1@))
}

/// The repair document grown from `acc`: every supplied file whose
/// path matches is glued on with a blank line.
pub open spec fn extras_fold(
    acc: Seq<char>,
    path: Seq<char>,
    extras: Seq<(Seq<char>, Seq<char>)>,
    i: int,
) -> Seq<char>
    decreases extras.len() - i,
{
    if i < 0 || i >= extras.len() {
        acc
    } else {
        extras_fold(
            if extras[i].0 == path {
                acc + seq!['\n', '\n'] + extras[i].1
            } else {
                acc
            },
            path,
            extras,
            i + 1,
        )
    }
}

/// The path of a source line, when the line parses: the characters
/// before the first colon, which must be followed by a line number
/// within the machine limit.
pub open spec fn source_path_of(source: Seq<char>) -> Option<Seq<char>> {
    let c = first_colon(source, 0);
    if c < source.len() && source.skip(c + 1).len() > 0 && all_digits(source.skip(c + 1))
        && dec_value(source.skip(c + 1)) <= usize::MAX {
        Some(source.take(c))
    } else {
        None
    }
}

/// The first message index whose line number lies beyond `lc`.
pub open spec fn first_beyond(msgs: Seq<(usize, Seq<char>)>, lc: int, i: int) -> int
    decreases msgs.len() - i,
{
    if i < 0 || i >= msgs.len() {
        i
    } else if msgs[i].0 > lc {
        i
    } else {
        first_beyond(msgs, lc, i + 1)
    }
}

/// The messages cut back to those before the first one whose line
/// number lies beyond `lc`; all of them when none does.
pub open spec fn cut_messages(msgs: Seq<(usize, Seq<char>)>, lc: int) -> Seq<(usize, Seq<char>)> {
    if first_beyond(msgs, lc, 0) < msgs.len() {
        msgs.take(first_beyond(msgs, lc, 0))
    } else {
        msgs
    }
}

impl MessageField {
    /// The selected field.
    pub fn project<'a>(&self, msgid: &'a str, msgstr: &'a str) -> (r: &'a str)
        ensures
            *self is Msgid ==> r == msgid,
            *self is Msgstr ==> r == msgstr,
    {
        match self {
            MessageField::Msgid => msgid,
            MessageField::Msgstr => msgstr,
        }
    }
}

/// Messages grouped by the source path they come from, ordered by
/// line number, used to resolve broken links with sibling messages.
pub struct SourceMap {
    pub entries: Vec<(String, Vec<(usize, String, String)>)>,
}

impl SourceMap {
    /// Construct a map from source paths to messages.  Each path's
    /// messages are ordered by line number.
    pub fn new(catalog: &Catalog) -> (r: SourceMap)
        ensures
            forall|e: int, i: int, j: int|
                0 <= e < r.entries@.len() && 0 <= i < j < r.entries@[e].1@.len() ==> (
                #[trigger] r.entries@[e].1@[i]).0 <= (#[trigger] r.entries@[e].1@[j]).0,
    {
        let mut entries: Vec<(String, Vec<(usize, String, String)>)> = Vec::new();
        let mut mi: usize = 0;
        while mi < catalog.messages.len()
            invariant
                0 <= mi <= catalog.messages@.len(),
            decreases catalog.messages@.len() - mi,
        {
            let tokens = split_whitespace_tokens(catalog.messages[mi].source.as_str());
            let mut ti: usize = 0;
            while ti < tokens.len()
                invariant
                    0 <= ti <= tokens@.len(),
                    mi < catalog.messages@.len(),
                decreases tokens@.len() - ti,
            {
                let (path, lineno) = match parse_source(tokens[ti].as_str()) {
                    Some((p, l)) => (p.to_owned(), l),
                    None => (tokens[ti].clone(), 0),
                };
                let msgid = catalog.messages[mi].msgid.clone();
                let msgstr = catalog.messages[mi].msgstr.clone();
                let mut found = false;
                let mut ei: usize = 0;
                while ei < entries.len()
                    invariant
                        0 <= ei <= entries@.len(),
                        mi < catalog.messages@.len(),
                    decreases entries@.len() - ei,
                {
                    if str_eq(entries[ei].0.as_str(), path.as_str()) {
                        found = true;
                        break ;
                    }
                    ei = ei + 1;
                }
                if found && ei < entries.len() {
                    let (key, mut list) = entries.remove(ei);
                    list.push((lineno, msgid, msgstr));
                    entries.insert(ei, (key, list));
                } else {
                    let mut list: Vec<(usize, String, String)> = Vec::new();
                    list.push((lineno, msgid, msgstr));
                    entries.push((path, list));
                }
                ti = ti + 1;
            }
            mi = mi + 1;
        }
        // Order each path's messages by line number, msgid and
        // msgstr, keeping the collection order among full ties.
        let mut ei: usize = 0;
        while ei < entries.len()
            invariant
                0 <= ei <= entries@.len(),
                forall|e: int, i: int, j: int|
                    0 <= e < ei && 0 <= i < j < entries@[e].1@.len() ==> (
                    #[trigger] entries@[e].1@[i]).0 <= (#[trigger] entries@[e].1@[j]).0,
            decreases entries@.len() - ei,
        {
            let ghost before = entries@;
            let (key, list) = entries.remove(ei);
            let sorted = sort_by_lineno(list);
            entries.insert(ei, (key, sorted));
            proof {
                assert forall|e: int, i: int, j: int|
                    0 <= e < ei + 1 && 0 <= i < j < entries@[e].1@.len() implies (
                #[trigger] entries@[e].1@[i]).0 <= (#[trigger] entries@[e].1@[j]).0 by {
                    if e < ei {
                        assert(entries@[e] == before[e]);
                    }
                }
            }
            ei = ei + 1;
        }
        SourceMap { entries }
    }

    fn lookup(&self, path: &str) -> (r: Option<&Vec<(usize, String, String)>>)
        ensures
            match r {
                Some(l) => entry_list_view(l@) == path_list(self.entries@, path@, 0),
                None => path_list(self.entries@, path@, 0) == Seq::<
                    (usize, Seq<char>, Seq<char>),
                >::empty(),
            },
    {
        let mut ei: usize = 0;
        while ei < self.entries.len()
            invariant
                0 <= ei <= self.entries@.len(),
                path_list(self.entries@, path@, 0) == path_list(
                    self.entries@,
                    path@,
                    ei as int,
                ),
            decreases self.entries@.len() - ei,
        {
            if str_eq(self.entries[ei].0.as_str(), path) {
                return Some(&self.entries[ei].1);
            }
            ei = ei + 1;
        }
        None
    }

    /// Extract messages for one field of a catalog entry.
    ///
    /// The field is parsed alone when possible.  When it holds a
    /// broken link, a larger document is built from the other
    /// messages of the same source path, so that the link definition
    /// is found, and the result is cut back to the lines of the
    /// original field.
    pub fn extract_messages(
        &self,
        msgid: &str,
        msgstr: &str,
        source: &str,
        field: MessageField,
        extra_sources: &Vec<(String, String)>,
    ) -> (r: Result<Vec<(usize, String)>, ReconstructError>)
        ensures
            ({
                let doc = if field is Msgid {
                    msgid@
                } else {
                    msgstr@
                };
                (!spec_has_broken_link(doc) || source_path_of(source@) is None)
                    && !crate::groups::has_code_block(crate::parse::extraction_of(doc)) ==> (
                match crate::messages::spec_extracted(
                    crate::groups::model_groups(
                        crate::parse::extraction_of(doc),
                        0,
                        0,
                        false,
                        false,
                        Seq::empty(),
                    ),
                    0,
                    Seq::empty(),
                ) {
                    None => r is Err,
                    Some(msgs) => r matches Ok(v) && doc_messages_view(v@) == spec_doc_messages(
                        msgs,
                    ),
                })
            }),
            ({
                let doc = if field is Msgid {
                    msgid@
                } else {
                    msgstr@
                };
                spec_has_broken_link(doc) && source_path_of(source@) is Some ==> ({
                    let path = source_path_of(source@)->Some_0;
                    let full = extras_fold(
                        sibling_fold(doc, doc, path_list(self.entries@, path, 0), field, 0),
                        path,
                        extras_view(extra_sources@),
                        0,
                    );
                    !crate::groups::has_code_block(crate::parse::extraction_of(full)) ==> (
                    match spec_doc_extraction(full) {
                        None => r is Err,
                        Some(msgs) => r matches Ok(v) && doc_messages_view(v@) == cut_messages(
                            msgs,
                            spec_count_lines(doc),
                        ),
                    })
                })
            }),
    {
        let document = field.project(msgid, msgstr);
        let ghost gdoc = document@;
        if !has_broken_link(document) {
            return extract_document_messages(document);
        }
        let path = match parse_source(source) {
            Some((p, _)) => p,
            None => {
                return extract_document_messages(document);
            },
        };
        let ghost gpath = path@;
        proof {
            assert(source_path_of(source@) == Some(gpath));
            reveal_strlit("\n\n");
            assert("\n\n"@ =~= seq!['\n', '\n']);
        }
        let ghost glist = path_list(self.entries@, gpath, 0);
        let mut full_document = document.to_owned();
        match self.lookup(path) {
            Some(list) => {
                let mut li: usize = 0;
                proof {
                    assert(entry_list_view(list@) == glist);
                }
                while li < list.len()
                    invariant
                        0 <= li <= list@.len(),
                        entry_list_view(list@) == glist,
                        gdoc == document@,
                        sibling_fold(full_document@, gdoc, glist, field, li as int)
                            == sibling_fold(gdoc, gdoc, glist, field, 0),
                    decreases list@.len() - li,
                {
                    proof {
                        assert(glist[li as int] == (list@[li as int].0, list@[li as int].1@,
                        list@[li as int].2@));
                    }
                    let entry_msgid: &String = &list[li].1;
                    let entry_msgstr: &String = &list[li].2;
                    let msg = field.project(entry_msgid.as_str(), entry_msgstr.as_str());
                    let ghost acc0 = full_document@;
                    let ghost gm = (if field is Msgid {
                        glist[li as int].1
                    } else {
                        glist[li as int].2
                    });
                    proof {
                        assert(msg@ == gm);
                    }
                    if !str_eq(msg, document) {
                        full_document.append("\n\n");
                        full_document.append(msg);
                        proof {
                            reveal_strlit("\n\n");
                            assert("\n\n"@ =~= seq!['\n', '\n']);
                            assert(full_document@ == acc0 + seq!['\n', '\n'] + gm);
                        }
                    }
                    proof {
                        assert(sibling_fold(acc0, gdoc, glist, field, li as int) == sibling_fold(
                            full_document@,
                            gdoc,
                            glist,
                            field,
                            li + 1,
                        ));
                    }
                    li = li + 1;
                }
            },
            None => {
                proof {
                    assert(sibling_fold(full_document@, gdoc, glist, field, 0) == sibling_fold(
                        gdoc,
                        gdoc,
                        glist,
                        field,
                        0,
                    ));
                }
            },
        }
        let ghost sib = sibling_fold(gdoc, gdoc, glist, field, 0);
        proof {
            assert(full_document@ == sib);
        }
        let ghost gextras = extras_view(extra_sources@);
        let mut xi: usize = 0;
        while xi < extra_sources.len()
            invariant
                0 <= xi <= extra_sources@.len(),
                gextras == extras_view(extra_sources@),
                gpath == path@,
                extras_fold(full_document@, gpath, gextras, xi as int) == extras_fold(
                    sib,
                    gpath,
                    gextras,
                    0,
                ),
            decreases extra_sources@.len() - xi,
        {
            proof {
                assert(gextras[xi as int] == (extra_sources@[xi as int].0@,
                extra_sources@[xi as int].1@));
            }
            let ghost acc0 = full_document@;
            if str_eq(extra_sources[xi].0.as_str(), path) {
                // The old catalog may predate the inclusion of link
                // definitions; the source file itself can still
                // resolve them.
                full_document.append("\n\n");
                full_document.append(extra_sources[xi].1.as_str());
                proof {
                    reveal_strlit("\n\n");
                    assert("\n\n"@ =~= seq!['\n', '\n']);
                    assert(full_document@ == acc0 + seq!['\n', '\n'] + gextras[xi as int].1);
                }
            }
            proof {
                assert(extras_fold(acc0, gpath, gextras, xi as int) == extras_fold(
                    full_document@,
                    gpath,
                    gextras,
                    xi + 1,
                ));
            }
            xi = xi + 1;
        }
        let ghost gfull = extras_fold(sib, gpath, gextras, 0);
        proof {
            assert(full_document@ == gfull);
        }
        let mut messages = match extract_document_messages(full_document.as_str()) {
            Ok(m) => m,
            Err(e) => {
                return Err(e);
            },
        };
        let ghost mv = doc_messages_view(messages@);
        let line_count = count_lines(document);
        let mut cut: usize = 0;
        let mut found = false;
        let mut mi: usize = 0;
        while mi < messages.len()
            invariant
                0 <= mi <= messages@.len(),
                cut <= messages@.len(),
                mv == doc_messages_view(messages@),
                line_count as int == spec_count_lines(gdoc),
                found ==> cut as int == first_beyond(mv, line_count as int, 0) && (cut as int)
                    < mv.len(),
                !found ==> first_beyond(mv, line_count as int, 0) == first_beyond(
                    mv,
                    line_count as int,
                    mi as int,
                ),
            decreases messages@.len() - mi,
        {
            proof {
                assert(mv[mi as int].0 == messages@[mi as int].0);
            }
            if !found && messages[mi].0 > line_count {
                cut = mi;
                found = true;
            }
            mi = mi + 1;
        }
        proof {
            if found {
                assert(cut_messages(mv, line_count as int) == mv.take(cut as int));
            } else {
                assert(first_beyond(mv, line_count as int, mv.len() as int) == mv.len());
                assert(cut_messages(mv, line_count as int) == mv);
            }
        }
        if found {
            messages.truncate(cut);
            proof {
                assert(doc_messages_view(messages@) =~= mv.take(cut as int));
            }
        }
        Ok(messages)
    }
}

/// Lexicographic order on strings, by code point; agrees with the
/// byte order of their encodings.
fn str_lt(a: &str, b: &str) -> bool {
    let ca = str_chars(a);
    let cb = str_chars(b);
    let mut i: usize = 0;
    while i < ca.len() && i < cb.len()
        invariant
            0 <= i <= ca@.len(),
            i <= cb@.len(),
        decreases ca@.len() - i,
    {
        if ca[i] != cb[i] {
            return (ca[i] as u32) < (cb[i] as u32);
        }
        i = i + 1;
    }
    ca.len() < cb.len()
}

/// Whether `a` comes at or before `b` in the order of the entries:
/// by line number, then msgid, then msgstr.
fn triple_le(a: &(usize, String, String), b: &(usize, String, String)) -> (r: bool)
    ensures
        r ==> a.0 <= b.0,
        !r ==> b.0 <= a.0,
{
    if a.0 != b.0 {
        a.0 < b.0
    } else if !str_eq(a.1.as_str(), b.1.as_str()) {
        str_lt(a.1.as_str(), b.1.as_str())
    } else if !str_eq(a.2.as_str(), b.2.as_str()) {
        str_lt(a.2.as_str(), b.2.as_str())
    } else {
        true
    }
}

fn sort_by_lineno(list: Vec<(usize, String, String)>) -> (r: Vec<(usize, String, String)>)
    ensures
        r@.len() == list@.len(),
        forall|i: int, j: int| 0 <= i < j < r@.len() ==> (#[trigger] r@[i]).0 <= (#[trigger] r@[j]).0,
{
    let mut input = list;
    let mut out: Vec<(usize, String, String)> = Vec::new();
    while input.len() > 0
        invariant
            out@.len() + input@.len() == list@.len(),
            forall|i: int, j: int|
                0 <= i < j < out@.len() ==> (#[trigger] out@[i]).0 <= (#[trigger] out@[j]).0,
        decreases input@.len(),
    {
        let item = input.remove(0);
        let ghost gitem = item;
        let mut pos: usize = 0;
        while pos < out.len() && triple_le(&out[pos], &item)
            invariant
                0 <= pos <= out@.len(),
                item == gitem,
                forall|i: int| 0 <= i < pos ==> (#[trigger] out@[i]).0 <= gitem.0,
            decreases out@.len() - pos,
        {
            pos = pos + 1;
        }
        let ghost out0 = out@;
        let ghost gpos = pos as int;
        proof {
            if gpos < out0.len() {
                assert(gitem.0 <= out0[gpos].0);
            }
        }
        out.insert(pos, item);
        proof {
            assert forall|i: int, j: int|
                0 <= i < j < out@.len() implies (#[trigger] out@[i]).0 <= (
            #[trigger] out@[j]).0 by {
                let oi = if i < gpos {
                    out0[i]
                } else if i == gpos {
                    gitem
                } else {
                    out0[i - 1]
                };
                let oj = if j < gpos {
                    out0[j]
                } else if j == gpos {
                    gitem
                } else {
                    out0[j - 1]
                };
                assert(out@[i] == oi);
                assert(out@[j] == oj);
                if j > gpos && i < gpos {
                    assert(out0[i].0 <= gitem.0);
                    assert(gitem.0 <= out0[gpos].0 || gpos >= out0.len());
                    assert(out0[i].0 <= out0[j - 1].0);
                } else if j == gpos && i < gpos {
                    assert(out0[i].0 <= gitem.0);
                } else if i == gpos && j > gpos {
                    assert(gitem.0 <= out0[gpos].0);
                    assert(gpos == j - 1 || out0[gpos].0 <= out0[j - 1].0);
                }
            }
        }
    }
    out
}

/// The number of lines of a document, as text editors count them: a
/// trailing line without a terminator counts, the empty document has
/// none.
fn count_lines(s: &str) -> (r: usize)
    ensures
        r as int == spec_count_lines(s@),
{
    let chars = str_chars(s);
    let mut count: usize = 0;
    let mut i: usize = 0;
    proof {
        assert(s@.take(0) =~= Seq::<char>::empty());
    }
    while i < chars.len()
        invariant
            0 <= i <= chars@.len(),
            count <= i,
            chars@ == s@,
            count as int == nl_count(s@.take(i as int)),
        decreases chars@.len() - i,
    {
        proof {
            assert(s@.take(i + 1).drop_last() =~= s@.take(i as int));
            assert(s@.take(i + 1).last() == s@[i as int]);
        }
        if chars[i] == '\n' {
            count = count + 1;
        }
        i = i + 1;
    }
    proof {
        assert(s@.take(s@.len() as int) =~= s@);
    }
    if chars.len() > 0 && chars[chars.len() - 1] != '\n' {
        if count < usize::MAX {
            count = count + 1;
        }
    }
    count
}

/// The surplus msgstr texts from `from` on, joined as separate
/// paragraphs.
pub open spec fn join_blank(strs: Seq<(usize, Seq<char>)>, from: int) -> Seq<char>
    decreases strs.len() - from,
{
    if from < 0 || from >= strs.len() {
        Seq::empty()
    } else if from == strs.len() - 1 {
        strs[from].1
    } else {
        strs[from].1 + seq!['\n', '\n'] + join_blank(strs, from + 1)
    }
}

/// The re-paired entries of one catalog entry: each new msgid with
/// its new msgstr, surplus msgstr tails joined onto the last pair,
/// missing msgstrs empty, all marked fuzzy when the entry was fuzzy
/// or a translated entry split unevenly.  Each triple carries the
/// line number of its msgid within the old entry.
pub open spec fn spec_entry_pairs(
    ids: Seq<(usize, Seq<char>)>,
    strs: Seq<(usize, Seq<char>)>,
    was_fuzzy: bool,
    translated: bool,
) -> Seq<(usize, Seq<char>, Seq<char>, bool)> {
    let fuzzy = was_fuzzy || (translated && ids.len() != strs.len());
    Seq::new(
        ids.len(),
        |i: int|
            (
                ids[i].0,
                ids[i].1,
                if ids.len() < strs.len() {
                    if i < ids.len() - 1 {
                        strs[i].1
                    } else {
                        join_blank(strs, ids.len() - 1)
                    }
                } else {
                    if i < strs.len() {
                        strs[i].1
                    } else {
                        Seq::empty()
                    }
                },
                fuzzy,
            ),
    )
}

/// The extraction of a document, at the line-and-text level, when
/// it is defined.
pub open spec fn spec_doc_extraction(s: Seq<char>) -> Option<Seq<(usize, Seq<char>)>> {
    match crate::messages::spec_extracted(
        crate::groups::model_groups(crate::parse::extraction_of(s), 0, 0, false, false, Seq::empty()),
        0,
        Seq::empty(),
    ) {
        None => None,
        Some(msgs) => Some(spec_doc_messages(msgs)),
    }
}

/// The re-paired entries of all catalog entries from `i` on, or
/// `None` when extraction of a field fails.  An entry whose msgid
/// yields no messages is dropped without looking at its msgstr.
pub open spec fn spec_pending(msgs: Seq<Message>, i: int) -> Option<
    Seq<(usize, Seq<char>, Seq<char>, bool)>,
>
    decreases msgs.len() - i,
{
    if i < 0 || i >= msgs.len() {
        Some(Seq::empty())
    } else {
        match spec_doc_extraction(msgs[i].msgid@) {
            None => None,
            Some(ids) => {
                if ids.len() == 0 {
                    spec_pending(msgs, i + 1)
                } else {
                    match spec_doc_extraction(msgs[i].msgstr@) {
                        None => None,
                        Some(strs) => {
                            let pairs = spec_entry_pairs(
                                ids,
                                strs,
                                crate::catalog::spec_is_fuzzy(
                                    crate::catalog::flags_view(msgs[i].flags),
                                ),
                                msgs[i].msgstr@.len() > 0,
                            );
                            match spec_pending(msgs, i + 1) {
                                None => None,
                                Some(rest) => Some(pairs + rest),
                            }
                        },
                    }
                }
            },
        }
    }
}

/// The projection of a message list to msgid, msgstr and fuzziness.
pub open spec fn proj_msgs(msgs: Seq<Message>) -> Seq<(Seq<char>, Seq<char>, bool)> {
    msgs.map_values(
        |m: Message|
            (
                m.msgid@,
                m.msgstr@,
                crate::catalog::spec_is_fuzzy(crate::catalog::flags_view(m.flags)),
            ),
    )
}

/// The first index with the given msgid, or the length.
pub open spec fn find_proj(cur: Seq<(Seq<char>, Seq<char>, bool)>, id: Seq<char>) -> int
    decreases cur.len(),
{
    if cur.len() == 0 {
        0
    } else if cur[0].0 == id {
        0
    } else {
        1 + find_proj(cur.drop_first(), id)
    }
}

/// Merging one re-paired entry into the output: a new msgid is
/// appended; an existing untranslated one adopts a translation,
/// keeping any fuzzy mark of either side; otherwise the first entry
/// wins.
pub open spec fn spec_merge_one(
    cur: Seq<(Seq<char>, Seq<char>, bool)>,
    t: (usize, Seq<char>, Seq<char>, bool),
) -> Seq<(Seq<char>, Seq<char>, bool)> {
    let k = find_proj(cur, t.1);
    if k < cur.len() {
        if cur[k].1.len() == 0 && t.2.len() > 0 {
            cur.update(k, (t.1, t.2, cur[k].2 || t.3))
        } else {
            cur
        }
    } else {
        cur.push((t.1, t.2, t.3))
    }
}

/// The merge fold over all re-paired entries from `j` on.
pub open spec fn spec_merge(
    cur: Seq<(Seq<char>, Seq<char>, bool)>,
    pending: Seq<(usize, Seq<char>, Seq<char>, bool)>,
    j: int,
) -> Seq<(Seq<char>, Seq<char>, bool)>
    decreases pending.len() - j,
{
    if j < 0 || j >= pending.len() {
        cur
    } else {
        spec_merge(spec_merge_one(cur, pending[j]), pending, j + 1)
    }
}

/// Whether the normalization of every entry stays inside the
/// verified fragment: no broken links (which would engage the
/// sibling repair) and no code blocks in either field.
pub open spec fn normalize_plain(msgs: Seq<Message>) -> bool {
    forall|i: int|
        0 <= i < msgs.len() ==> {
            &&& !spec_has_broken_link((#[trigger] msgs[i]).msgid@)
            &&& !spec_has_broken_link(msgs[i].msgstr@)
            &&& !crate::groups::has_code_block(crate::parse::extraction_of(msgs[i].msgid@))
            &&& !crate::groups::has_code_block(crate::parse::extraction_of(msgs[i].msgstr@))
        }
}

/// Pair the re-extracted msgids with the re-extracted msgstrs of
/// one entry: surplus msgstr tails are joined as paragraphs onto
/// the last pair, missing msgstrs become empty.  Each pair carries
/// the line number of its msgid.
fn pair_lists(new_msgids: &Vec<(usize, String)>, new_msgstrs: &Vec<(usize, String)>) -> (r: Vec<
    (usize, String),
>)
    requires
        new_msgids@.len() > 0,
    ensures
        r@.len() == new_msgids@.len(),
        forall|i: int|
            0 <= i < r@.len() ==> {
                let pairs = spec_entry_pairs(
                    doc_messages_view(new_msgids@),
                    doc_messages_view(new_msgstrs@),
                    false,
                    false,
                );
                (#[trigger] r@[i]).0 == pairs[i].0 && r@[i].1@ == pairs[i].2
            },
{
    let ghost ids = doc_messages_view(new_msgids@);
    let ghost strs = doc_messages_view(new_msgstrs@);
    let mut r: Vec<(usize, String)> = Vec::new();
    let n = new_msgids.len();
    if new_msgstrs.len() > n {
        let keep = n - 1;
        let mut tail = String::new();
        let mut ti: usize = keep;
        let mut first_piece = true;
        while ti < new_msgstrs.len()
            invariant
                keep <= ti <= new_msgstrs@.len(),
                strs == doc_messages_view(new_msgstrs@),
                (keep as int) < strs.len(),
                first_piece <==> ti == keep,
                first_piece ==> tail@ == Seq::<char>::empty(),
                ti < new_msgstrs@.len() && !first_piece ==> tail@ + seq!['\n', '\n'] + join_blank(
                    strs,
                    ti as int,
                ) == join_blank(strs, keep as int),
                ti == new_msgstrs@.len() ==> tail@ == join_blank(strs, keep as int),
            decreases new_msgstrs@.len() - ti,
        {
            let ghost tail0 = tail@;
            if !first_piece {
                tail.append("\n\n");
                proof {
                    reveal_strlit("\n\n");
                    assert("\n\n"@ =~= seq!['\n', '\n']);
                }
            }
            first_piece = false;
            tail.append(new_msgstrs[ti].1.as_str());
            proof {
                assert(strs[ti as int].1 == new_msgstrs@[ti as int].1@);
                if ti as int == strs.len() - 1 {
                    assert(join_blank(strs, ti as int) == strs[ti as int].1);
                    if ti == keep {
                        assert(tail@ =~= join_blank(strs, keep as int));
                    } else {
                        assert(tail@ =~= tail0 + seq!['\n', '\n'] + strs[ti as int].1);
                        assert(tail0 + seq!['\n', '\n'] + join_blank(strs, ti as int)
                            == join_blank(strs, keep as int));
                    }
                } else {
                    assert(join_blank(strs, ti as int) == strs[ti as int].1 + seq!['\n', '\n']
                        + join_blank(strs, ti + 1));
                    if ti == keep {
                        assert(tail@ =~= strs[ti as int].1);
                        assert(tail@ + seq!['\n', '\n'] + join_blank(strs, ti + 1) =~= join_blank(
                            strs,
                            keep as int,
                        ));
                    } else {
                        assert(tail@ =~= tail0 + seq!['\n', '\n'] + strs[ti as int].1);
                        assert(tail@ + seq!['\n', '\n'] + join_blank(strs, ti + 1) =~= tail0
                            + seq!['\n', '\n'] + join_blank(strs, ti as int));
                        assert(tail0 + seq!['\n', '\n'] + join_blank(strs, ti as int)
                            == join_blank(strs, keep as int));
                    }
                }
            }
            ti = ti + 1;
        }
        let mut i: usize = 0;
        while i < keep
            invariant
                0 <= i <= keep,
                keep + 1 == new_msgids@.len(),
                (keep as int) < strs.len(),
                ids == doc_messages_view(new_msgids@),
                strs == doc_messages_view(new_msgstrs@),
                r@.len() == i,
                forall|x: int|
                    0 <= x < i ==> (#[trigger] r@[x]).0 == ids[x].0 && r@[x].1@ == strs[x].1,
            decreases keep - i,
        {
            r.push((new_msgids[i].0, new_msgstrs[i].1.clone()));
            proof {
                assert(ids[i as int].0 == new_msgids@[i as int].0);
                assert(strs[i as int].1 == new_msgstrs@[i as int].1@);
            }
            i = i + 1;
        }
        r.push((new_msgids[keep].0, tail));
        proof {
            assert(ids[keep as int].0 == new_msgids@[keep as int].0);
        }
        r
    } else {
        let mut i: usize = 0;
        while i < n
            invariant
                0 <= i <= n == new_msgids@.len(),
                strs.len() <= ids.len(),
                ids == doc_messages_view(new_msgids@),
                strs == doc_messages_view(new_msgstrs@),
                r@.len() == i,
                forall|x: int|
                    0 <= x < i ==> (#[trigger] r@[x]).0 == ids[x].0 && r@[x].1@ == (if x
                        < strs.len() {
                        strs[x].1
                    } else {
                        Seq::<char>::empty()
                    }),
            decreases n - i,
        {
            let value: String = if i < new_msgstrs.len() {
                new_msgstrs[i].1.clone()
            } else {
                String::new()
            };
            r.push((new_msgids[i].0, value));
            proof {
                assert(ids[i as int].0 == new_msgids@[i as int].0);
                if (i as int) < strs.len() {
                    assert(strs[i as int].1 == new_msgstrs@[i as int].1@);
                }
            }
            i = i + 1;
        }
        r
    }
}

/// `find_index` and the projection-level lookup agree.
proof fn lemma_find_proj_view(msgs: Seq<Message>, id: Seq<char>)
    ensures
        crate::catalog::find_index(msgs, id) == find_proj(proj_msgs(msgs), id),
    decreases msgs.len(),
{
    if msgs.len() > 0 {
        assert(proj_msgs(msgs)[0] == (msgs[0].msgid@, msgs[0].msgstr@,
        crate::catalog::spec_is_fuzzy(crate::catalog::flags_view(msgs[0].flags))));
        if msgs[0].msgid@ != id {
            lemma_find_proj_view(msgs.drop_first(), id);
            assert(proj_msgs(msgs.drop_first()) =~= proj_msgs(msgs).drop_first());
        }
    }
}

/// Normalize all entries of the catalog.
///
/// Both the msgid and the msgstr of every entry are sent through
/// message extraction, and the resulting lists are re-paired.  When
/// the two lists differ in length the results are marked fuzzy:
/// surplus translations are joined onto the last pair as separate
/// paragraphs, missing ones become empty.  Entries whose msgid
/// normalizes to nothing are dropped.  The resulting catalog has
/// unique msgids; when two entries normalize to the same msgid the
/// first translated one wins.  For catalogs whose entries hold no
/// broken links and no code blocks, the result's msgid, msgstr and
/// fuzzy values are pinned exactly: the re-paired entries of
/// [`spec_pending`], merged by [`spec_merge`].
pub fn normalize(catalog: Catalog) -> (r: Result<Catalog, ReconstructError>)
    ensures
        r matches Ok(c) ==> catalog_wf(c),
        normalize_plain(catalog.messages@) ==> (match spec_pending(catalog.messages@, 0) {
            None => r is Err,
            Some(pending) => r matches Ok(c) && proj_msgs(c.messages@) == spec_merge(
                Seq::empty(),
                pending,
                0,
            ),
        }),
{
    let extra: Vec<(String, String)> = Vec::new();
    normalize_with_sources(catalog, &extra)
}

/// Normalize all entries of the catalog, with the contents of the
/// source files the catalog refers to supplied as plain values.
///
/// The broken-link repair first tries the sibling messages of the
/// same source path; when the file's contents are supplied under
/// that path they are appended as well, so that link definitions
/// that only the file holds can be resolved.  Everything else is as
/// [`normalize`], whose contract this function carries.
pub fn normalize_with_sources(catalog: Catalog, extra_sources: &Vec<(String, String)>) -> (r:
    Result<Catalog, ReconstructError>)
    ensures
        r matches Ok(c) ==> catalog_wf(c),
        normalize_plain(catalog.messages@) ==> (match spec_pending(catalog.messages@, 0) {
            None => r is Err,
            Some(pending) => r matches Ok(c) && proj_msgs(c.messages@) == spec_merge(
                Seq::empty(),
                pending,
                0,
            ),
        }),
{
    let ghost input = catalog.messages@;
    let ghost hyp = normalize_plain(input);
    let ghost whole = spec_pending(input, 0);
    let source_map = SourceMap::new(&catalog);
    let mut new_messages: Vec<Message> = Vec::new();
    let ghost mut built: Seq<(usize, Seq<char>, Seq<char>, bool)> = Seq::empty();
    let mut mi: usize = 0;
    proof {
        assert(Seq::<(usize, Seq<char>, Seq<char>, bool)>::empty() + whole.unwrap_or(
            Seq::empty(),
        ) =~= whole.unwrap_or(Seq::empty()));
    }
    while mi < catalog.messages.len()
        invariant
            0 <= mi <= catalog.messages@.len(),
            input == catalog.messages@,
            hyp == normalize_plain(input),
            whole == spec_pending(input, 0),
            built.len() == new_messages@.len(),
            forall|x: int|
                0 <= x < built.len() ==> {
                    let m = #[trigger] new_messages@[x];
                    &&& m.msgid@ == built[x].1
                    &&& m.msgstr@ == built[x].2
                    &&& crate::catalog::spec_is_fuzzy(crate::catalog::flags_view(m.flags))
                        == built[x].3
                },
            hyp ==> whole == (match spec_pending(input, mi as int) {
                None => None::<Seq<(usize, Seq<char>, Seq<char>, bool)>>,
                Some(rest) => Some(built + rest),
            }),
        decreases catalog.messages@.len() - mi,
    {
        let ghost mi0 = mi as int;
        let ghost built0 = built;
        let msg = &catalog.messages[mi];
        proof {
            if hyp {
                assert(!spec_has_broken_link(input[mi0].msgid@) && !spec_has_broken_link(
                    input[mi0].msgstr@,
                ) && !crate::groups::has_code_block(crate::parse::extraction_of(
                    input[mi0].msgid@,
                )) && !crate::groups::has_code_block(crate::parse::extraction_of(
                    input[mi0].msgstr@,
                )));
            }
        }
        let new_msgids = match source_map.extract_messages(
            msg.msgid.as_str(),
            msg.msgstr.as_str(),
            msg.source.as_str(),
            MessageField::Msgid,
            extra_sources,
        ) {
            Ok(v) => v,
            Err(e) => {
                proof {
                    if hyp {
                        assert(spec_doc_extraction(input[mi0].msgid@) is None);
                        assert(spec_pending(input, mi0) is None);
                    }
                }
                return Err(e);
            },
        };
        proof {
            if hyp {
                assert(spec_doc_extraction(input[mi0].msgid@) == Some(
                    doc_messages_view(new_msgids@),
                ));
            }
        }
        if new_msgids.len() == 0 {
            // Nothing to normalize: the old msgid disappears under
            // the current extractor, for example bare HTML.
            proof {
                if hyp {
                    assert(spec_pending(input, mi0) == spec_pending(input, mi0 + 1));
                }
            }
            mi = mi + 1;
            continue ;
        }
        let new_msgstrs = match source_map.extract_messages(
            msg.msgid.as_str(),
            msg.msgstr.as_str(),
            msg.source.as_str(),
            MessageField::Msgstr,
            extra_sources,
        ) {
            Ok(v) => v,
            Err(e) => {
                proof {
                    if hyp {
                        assert(spec_doc_extraction(input[mi0].msgstr@) is None);
                        assert(spec_pending(input, mi0) is None);
                    }
                }
                return Err(e);
            },
        };
        proof {
            if hyp {
                assert(spec_doc_extraction(input[mi0].msgstr@) == Some(
                    doc_messages_view(new_msgstrs@),
                ));
            }
        }
        let mut fuzzy = msg.is_fuzzy();
        if msg.is_translated() && new_msgids.len() != new_msgstrs.len() {
            fuzzy = true;
        }
        let ghost pairs = spec_entry_pairs(
            doc_messages_view(new_msgids@),
            doc_messages_view(new_msgstrs@),
            crate::catalog::spec_is_fuzzy(crate::catalog::flags_view(input[mi0].flags)),
            input[mi0].msgstr@.len() > 0,
        );
        let paired = pair_lists(&new_msgids, &new_msgstrs);
        let mut pi: usize = 0;
        while pi < paired.len()
            invariant
                0 <= pi <= paired@.len(),
                mi0 < input.len(),
                input == catalog.messages@,
                mi as int == mi0,
                paired@.len() == new_msgids@.len(),
                new_msgids@.len() == doc_messages_view(new_msgids@).len(),
                new_msgstrs@.len() == doc_messages_view(new_msgstrs@).len(),
                pairs.len() == paired@.len(),
                pairs == spec_entry_pairs(
                    doc_messages_view(new_msgids@),
                    doc_messages_view(new_msgstrs@),
                    crate::catalog::spec_is_fuzzy(crate::catalog::flags_view(input[mi0].flags)),
                    input[mi0].msgstr@.len() > 0,
                ),
                fuzzy == (crate::catalog::spec_is_fuzzy(crate::catalog::flags_view(
                    input[mi0].flags,
                )) || (input[mi0].msgstr@.len() > 0 && doc_messages_view(new_msgids@).len()
                    != doc_messages_view(new_msgstrs@).len())),
                forall|i: int|
                    0 <= i < paired@.len() ==> (#[trigger] paired@[i]).0 == pairs[i].0
                        && paired@[i].1@ == pairs[i].2,
                forall|i: int|
                    0 <= i < paired@.len() ==> (#[trigger] pairs[i]).1 == doc_messages_view(
                        new_msgids@,
                    )[i].1,
                built.len() == new_messages@.len(),
                built == built0 + pairs.take(pi as int),
                forall|x: int|
                    0 <= x < built.len() ==> {
                        let m = #[trigger] new_messages@[x];
                        &&& m.msgid@ == built[x].1
                        &&& m.msgstr@ == built[x].2
                        &&& crate::catalog::spec_is_fuzzy(crate::catalog::flags_view(m.flags))
                            == built[x].3
                    },
            decreases paired@.len() - pi,
        {
            let ghost builtp = built;
            let delta: usize = paired[pi].0;
            let shift: usize = if delta > 0 {
                delta - 1
            } else {
                0
            };
            let mut flags = MessageFlags::new();
            proof {
                assert(!crate::catalog::spec_is_fuzzy(crate::catalog::flags_view(flags))) by {
                    if crate::catalog::spec_is_fuzzy(crate::catalog::flags_view(flags)) {
                        let ix = choose|ix: int|
                            0 <= ix < crate::catalog::flags_view(flags).len()
                                && crate::catalog::flags_view(flags)[ix] == "fuzzy"@;
                    }
                }
            }
            if fuzzy {
                flags.add_flag("fuzzy");
            }
            let ghost gflags = flags;
            let new_message = Message::build_singular().with_source(
                compute_source(catalog.messages[mi].source.as_str(), shift),
            ).with_msgid(new_msgids[pi].1.clone()).with_msgstr(
                paired[pi].1.clone(),
            ).with_flags(flags).done();
            let ghost gm = new_message;
            new_messages.push(new_message);
            proof {
                assert(crate::catalog::spec_is_fuzzy(crate::catalog::flags_view(gm.flags))
                    == fuzzy) by {
                    if !fuzzy {
                        assert(gflags == gm.flags);
                    }
                }
                assert(pairs[pi as int].3 == fuzzy);
                assert(gm.msgid@ == doc_messages_view(new_msgids@)[pi as int].1);
                assert(gm.msgstr@ == pairs[pi as int].2);
                built = built.push(pairs[pi as int]);
                assert(built =~= built0 + pairs.take(pi + 1));
                assert forall|x: int|
                    0 <= x < built.len() implies {
                    let m = #[trigger] new_messages@[x];
                    &&& m.msgid@ == built[x].1
                    &&& m.msgstr@ == built[x].2
                    &&& crate::catalog::spec_is_fuzzy(crate::catalog::flags_view(m.flags))
                        == built[x].3
                } by {
                    if x < builtp.len() {
                        assert(new_messages@[x] == new_messages@[x]);
                        assert(built[x] == builtp[x]);
                    } else {
                        assert(new_messages@[x] == gm);
                        assert(built[x] == pairs[pi as int]);
                    }
                }
            }
            pi = pi + 1;
        }
        proof {
            if hyp {
                assert(pairs.take(pairs.len() as int) =~= pairs);
                assert(spec_pending(input, mi0) == (match spec_pending(input, mi0 + 1) {
                    None => None::<Seq<(usize, Seq<char>, Seq<char>, bool)>>,
                    Some(rest) => Some(pairs + rest),
                }));
                match spec_pending(input, mi0 + 1) {
                    None => {},
                    Some(rest) => {
                        assert(built0 + (pairs + rest) =~= built + rest);
                    },
                }
            } else {
                assert(built == built0 + pairs.take(paired@.len() as int));
            }
        }
        mi = mi + 1;
    }
    proof {
        if hyp {
            assert(spec_pending(input, input.len() as int) == Some(
                Seq::<(usize, Seq<char>, Seq<char>, bool)>::empty(),
            ));
            assert(built + Seq::<(usize, Seq<char>, Seq<char>, bool)>::empty() =~= built);
            assert(whole == Some(built));
        }
    }
    let ghost pending = built;
    let mut new_catalog = Catalog::new(catalog.metadata);
    let ghost mut j: int = 0;
    proof {
        assert(proj_msgs(new_catalog.messages@) =~= Seq::<(Seq<char>, Seq<char>, bool)>::empty());
    }
    while new_messages.len() > 0
        invariant
            catalog_wf(new_catalog),
            0 <= j,
            j + new_messages@.len() == pending.len(),
            forall|x: int|
                0 <= x < new_messages@.len() ==> {
                    let m = #[trigger] new_messages@[x];
                    &&& m.msgid@ == pending[j + x].1
                    &&& m.msgstr@ == pending[j + x].2
                    &&& crate::catalog::spec_is_fuzzy(crate::catalog::flags_view(m.flags))
                        == pending[j + x].3
                },
            spec_merge(Seq::empty(), pending, 0) == spec_merge(
                proj_msgs(new_catalog.messages@),
                pending,
                j,
            ),
        decreases new_messages@.len(),
    {
        let ghost nm0 = new_messages@;
        let ghost cur = proj_msgs(new_catalog.messages@);
        let ghost pre_msgs = new_catalog.messages@;
        let new_message = new_messages.remove(0);
        let ghost gnew = new_message;
        proof {
            assert(gnew == nm0[0]);
            assert forall|x: int|
                0 <= x < new_messages@.len() implies {
                let m = #[trigger] new_messages@[x];
                &&& m.msgid@ == pending[j + 1 + x].1
                &&& m.msgstr@ == pending[j + 1 + x].2
                &&& crate::catalog::spec_is_fuzzy(crate::catalog::flags_view(m.flags)) == pending[
                    j + 1 + x].3
            } by {
                assert(new_messages@[x] == nm0[x + 1]);
            }
            lemma_find_proj_view(pre_msgs, gnew.msgid@);
            crate::catalog::lemma_find_index(pre_msgs, gnew.msgid@);
        }
        let ghost k = crate::catalog::find_index(pre_msgs, gnew.msgid@);
        match new_catalog.find_message(new_message.msgid.as_str()) {
            Some(existing) => {
                let mut merged = Message {
                    msgid: existing.msgid.clone(),
                    msgstr: existing.msgstr.clone(),
                    source: existing.source.clone(),
                    comments: existing.comments.clone(),
                    flags: existing.flags.clone(),
                };
                if !existing.is_translated() && new_message.is_translated() {
                    merged.msgstr = new_message.msgstr.clone();
                    // Entries like a heading and a list item can
                    // normalize to the same msgid; keep the fuzzy
                    // flag when the adopted translation had it.
                    if new_message.is_fuzzy() {
                        merged.flags.add_flag("fuzzy");
                    }
                }
                merged.source.append("\n");
                merged.source.append(new_message.source.as_str());
                let ghost gmerged = merged;
                proof {
                    assert(gmerged.msgid@ == gnew.msgid@);
                }
                new_catalog.append_or_update(merged);
                proof {
                    assert(new_catalog.messages@ == pre_msgs.update(k, gmerged));
                    let t = pending[j];
                    assert(gnew.msgid@ == t.1 && gnew.msgstr@ == t.2
                        && crate::catalog::spec_is_fuzzy(crate::catalog::flags_view(gnew.flags))
                        == t.3);
                    assert(find_proj(cur, t.1) == k);
                    assert(k < pre_msgs.len());
                    assert(cur[k] == (pre_msgs[k].msgid@, pre_msgs[k].msgstr@,
                    crate::catalog::spec_is_fuzzy(crate::catalog::flags_view(
                        pre_msgs[k].flags,
                    ))));
                    assert(gmerged.msgid@ == t.1);
                    if cur[k].1.len() == 0 && t.2.len() > 0 {
                        assert(gmerged.msgstr@ == t.2);
                        assert(crate::catalog::spec_is_fuzzy(crate::catalog::flags_view(
                            gmerged.flags,
                        )) == (cur[k].2 || t.3));
                        assert forall|x: int|
                            0 <= x < new_catalog.messages@.len() implies proj_msgs(
                            new_catalog.messages@,
                        )[x] == spec_merge_one(cur, t)[x] by {
                            assert(proj_msgs(new_catalog.messages@)[x] == (
                                new_catalog.messages@[x].msgid@,
                                new_catalog.messages@[x].msgstr@,
                                crate::catalog::spec_is_fuzzy(crate::catalog::flags_view(
                                    new_catalog.messages@[x].flags,
                                )),
                            ));
                            if x != k {
                                assert(new_catalog.messages@[x] == pre_msgs[x]);
                                assert(cur[x] == proj_msgs(pre_msgs)[x]);
                            }
                        }
                        assert(proj_msgs(new_catalog.messages@) =~= spec_merge_one(cur, t));
                    } else {
                        assert(gmerged.msgstr@ == pre_msgs[k].msgstr@);
                        assert(crate::catalog::flags_view(gmerged.flags)
                            == crate::catalog::flags_view(pre_msgs[k].flags));
                        assert forall|x: int|
                            0 <= x < new_catalog.messages@.len() implies proj_msgs(
                            new_catalog.messages@,
                        )[x] == spec_merge_one(cur, t)[x] by {
                            assert(proj_msgs(new_catalog.messages@)[x] == (
                                new_catalog.messages@[x].msgid@,
                                new_catalog.messages@[x].msgstr@,
                                crate::catalog::spec_is_fuzzy(crate::catalog::flags_view(
                                    new_catalog.messages@[x].flags,
                                )),
                            ));
                            assert(spec_merge_one(cur, t) == cur);
                            assert(cur[x] == proj_msgs(pre_msgs)[x]);
                            if x != k {
                                assert(new_catalog.messages@[x] == pre_msgs[x]);
                            } else {
                                assert(new_catalog.messages@[x] == gmerged);
                            }
                        }
                        assert(proj_msgs(new_catalog.messages@) =~= spec_merge_one(cur, t));
                    }
                }
            },
            None => {
                new_catalog.append_or_update(new_message);
                proof {
                    assert(new_catalog.messages@ == pre_msgs.push(gnew));
                    let t = pending[j];
                    assert(gnew.msgid@ == t.1 && gnew.msgstr@ == t.2
                        && crate::catalog::spec_is_fuzzy(crate::catalog::flags_view(gnew.flags))
                        == t.3);
                    assert(find_proj(cur, t.1) == k);
                    assert(k >= pre_msgs.len()) by {
                        crate::catalog::lemma_find_index(pre_msgs, gnew.msgid@);
                        if k < pre_msgs.len() {
                            assert(pre_msgs[k].msgid@ == gnew.msgid@);
                        }
                    }
                    assert forall|x: int|
                        0 <= x < new_catalog.messages@.len() implies proj_msgs(
                        new_catalog.messages@,
                    )[x] == spec_merge_one(cur, t)[x] by {
                        assert(proj_msgs(new_catalog.messages@)[x] == (
                            new_catalog.messages@[x].msgid@,
                            new_catalog.messages@[x].msgstr@,
                            crate::catalog::spec_is_fuzzy(crate::catalog::flags_view(
                                new_catalog.messages@[x].flags,
                            )),
                        ));
                        if x < pre_msgs.len() {
                            assert(new_catalog.messages@[x] == pre_msgs[x]);
                            assert(cur[x] == proj_msgs(pre_msgs)[x]);
                        } else {
                            assert(new_catalog.messages@[x] == gnew);
                        }
                    }
                    assert(proj_msgs(new_catalog.messages@) =~= spec_merge_one(cur, t));
                }
            },
        }
        proof {
            assert(spec_merge(cur, pending, j) == spec_merge(
                spec_merge_one(cur, pending[j]),
                pending,
                j + 1,
            ));
            j = j + 1;
        }
    }
    Ok(new_catalog)
}

} // verus!
