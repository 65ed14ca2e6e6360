//! Extracting a catalog template from a book.

use vstd::prelude::*;
use vstd::string::StrSliceExecFns;
use vstd::string::StringExecFns;

use crate::catalog::{Catalog, CatalogMetadata, Message, catalog_wf, str_eq};
use crate::events::{MdEvent, MdTag, MdTagEnd};
use crate::gettext::{BookChapter, BookItem};
use crate::messages::extract_messages;
use crate::parse::extract_events;
use crate::paths::{UniquePathBuilder, format_usize};
use crate::render::{ReconstructError, reconstruct_markdown};
use crate::text::{str_chars, wrap_sources};

verus! {

/// Whether an event opens or closes a link.
pub open spec fn is_link_edge(e: crate::events::MdEventS) -> bool {
    e matches crate::events::MdEventS::Start(crate::events::MdTagS::Link { .. }) || e
        == crate::events::MdEventS::End(MdTagEnd::Link)
}

/// The events with link edges dropped and positions zeroed.
pub open spec fn link_stripped(evs: Seq<(usize, crate::events::MdEventS)>) -> Seq<
    (usize, crate::events::MdEventS),
>
    decreases evs.len(),
{
    if evs.len() == 0 {
        Seq::empty()
    } else {
        link_stripped(evs.drop_last()) + (if is_link_edge(evs.last().1) {
            Seq::empty()
        } else {
            seq![(0usize, evs.last().1)]
        })
    }
}

/// Strip an optional outer link from a Markdown string: the link
/// start and end events are dropped and the rest is reconstructed,
/// so `[Foo *Bar*](foo.md)` becomes `Foo _Bar_`.  The result is
/// pinned exactly: the reconstruction of the link-stripped events,
/// an error exactly when the serializer rejects them.
pub fn strip_link(text: &str) -> (r: Result<String, ReconstructError>)
    ensures
        ({
            let kept = link_stripped(crate::parse::extraction_of(text@));
            let kb = crate::events::bare_events(kept);
            let tc = crate::render::spec_token_count(kb);
            &&& (r is Ok <==> crate::render::render_ok(Seq::empty(), kb, tc))
            &&& (r matches Ok(s) ==> s@ == crate::render::trim_leading_newlines(
                crate::render::rendered_after(Seq::empty(), kb, tc),
            ))
        }),
{
    let events = extract_events(text, None);
    let ghost evs = crate::events::events_view(events@);
    let mut kept: Vec<(usize, MdEvent)> = Vec::new();
    let mut i: usize = 0;
    proof {
        assert(evs == crate::parse::extraction_of(text@));
        assert(evs.take(0) =~= Seq::<(usize, crate::events::MdEventS)>::empty());
        assert(crate::events::events_view(kept@) =~= link_stripped(evs.take(0)));
    }
    while i < events.len()
        invariant
            0 <= i <= events@.len(),
            evs == crate::events::events_view(events@),
            crate::events::events_view(kept@) == link_stripped(evs.take(i as int)),
        decreases events@.len() - i,
    {
        let ghost kept0 = crate::events::events_view(kept@);
        proof {
            assert(evs.take(i + 1).drop_last() =~= evs.take(i as int));
            assert(evs.take(i + 1).last() == evs[i as int]);
            assert(evs[i as int] == crate::events::pos_event_view(events@[i as int]));
        }
        let keep = match &events[i].1 {
            MdEvent::Start(MdTag::Link { .. }) => false,
            MdEvent::End(MdTagEnd::Link) => false,
            _ => true,
        };
        if keep {
            let ev = events[i].1.clone();
            let ghost gv = ev@;
            kept.push((0, ev));
            proof {
                assert(crate::events::events_view(kept@) =~= kept0.push((0usize, gv)));
                assert(kept0 + seq![(0usize, evs[i as int].1)] =~= kept0.push(
                    (0usize, evs[i as int].1),
                ));
            }
        } else {
            proof {
                assert(kept0 + Seq::<(usize, crate::events::MdEventS)>::empty() =~= kept0);
            }
        }
        i = i + 1;
    }
    proof {
        assert(evs.take(evs.len() as int) =~= evs);
        assert(crate::render::opt_state_events(None) =~= Seq::<crate::events::MdEventS>::empty());
    }
    match reconstruct_markdown(&kept, None) {
        Ok(p) => Ok(p.0),
        Err(e) => Err(e),
    }
}

/// Add a message to the catalog: a new msgid is appended with the
/// source and comment; an existing msgid keeps its position and its
/// entry is rebuilt with the new source appended on a new line.
/// Key uniqueness is preserved.
pub fn add_message(catalog: &mut Catalog, msgid: &str, source: &str, comment: &str)
    requires
        catalog_wf(*old(catalog)),
    ensures
        catalog_wf(*final(catalog)),
        final(catalog).metadata == old(catalog).metadata,
        crate::catalog::msgs_view(final(catalog).messages@) == crate::catalog::spec_add_message(
            crate::catalog::msgs_view(old(catalog).messages@),
            msgid@,
            source@,
            comment@,
        ),
{
    proof {
        crate::catalog::lemma_find_index_view(catalog.messages@, msgid@);
    }
    let ghost pre = catalog.messages@;
    let sources: String = match catalog.find_message(msgid) {
        Some(existing) => {
            let mut s = existing.source.clone();
            s.append("\n");
            proof {
                reveal_strlit("\n");
                assert("\n"@ =~= seq!['\n']);
            }
            s.append(source);
            s
        },
        None => source.to_owned(),
    };
    let message = Message::build_singular().with_source(sources).with_msgid(
        msgid.to_owned(),
    ).with_comments(comment.to_owned()).done();
    let ghost gm = message;
    catalog.append_or_update(message);
    proof {
        assert(crate::catalog::spec_is_fuzzy(crate::catalog::flags_view(gm.flags))
            == false) by {
            if crate::catalog::spec_is_fuzzy(crate::catalog::flags_view(gm.flags)) {
                let i = choose|i: int|
                    0 <= i < crate::catalog::flags_view(gm.flags).len()
                        && crate::catalog::flags_view(gm.flags)[i] == "fuzzy"@;
            }
        }
        assert(gm.msgid@ == msgid@);
        crate::catalog::lemma_find_index(pre, msgid@);
        let k = crate::catalog::find_index(pre, msgid@);
        let target = crate::catalog::spec_add_message(
            crate::catalog::msgs_view(pre),
            msgid@,
            source@,
            comment@,
        );
        assert(crate::catalog::find_index_v(crate::catalog::msgs_view(pre), msgid@) == k);
        if k < pre.len() {
            assert(catalog.messages@ == pre.update(k, gm));
            assert(gm.source@ == pre[k].source@ + seq!['\n'] + source@);
            assert forall|j: int|
                0 <= j < catalog.messages@.len() implies crate::catalog::msgs_view(
                catalog.messages@,
            )[j] == target[j] by {
                assert(crate::catalog::msgs_view(catalog.messages@)[j]
                    == crate::catalog::msg_view(catalog.messages@[j]));
                if j == k {
                    assert(catalog.messages@[j] == gm);
                } else {
                    assert(catalog.messages@[j] == pre[j]);
                    assert(target[j] == crate::catalog::msgs_view(pre)[j]);
                    assert(crate::catalog::msgs_view(pre)[j] == crate::catalog::msg_view(pre[j]));
                }
            }
            assert(crate::catalog::msgs_view(catalog.messages@) =~= target);
        } else {
            assert(catalog.messages@ == pre.push(gm));
            assert(gm.source@ == source@);
            assert forall|j: int|
                0 <= j < catalog.messages@.len() implies crate::catalog::msgs_view(
                catalog.messages@,
            )[j] == target[j] by {
                assert(crate::catalog::msgs_view(catalog.messages@)[j]
                    == crate::catalog::msg_view(catalog.messages@[j]));
                if j < pre.len() {
                    assert(catalog.messages@[j] == pre[j]);
                    assert(target[j] == crate::catalog::msgs_view(pre)[j]);
                    assert(crate::catalog::msgs_view(pre)[j] == crate::catalog::msg_view(pre[j]));
                } else {
                    assert(catalog.messages@[j] == gm);
                }
            }
            assert(crate::catalog::msgs_view(catalog.messages@) =~= target);
        }
    }
}

/// Build a source line for a catalog message.
///
/// With granularity zero the line number is dropped; with one it is
/// kept; with a larger granularity it is rounded down to the nearest
/// multiple, but never below one.
pub fn build_source(path: &str, lineno: usize, granularity: usize) -> (r: String)
    ensures
        granularity == 0 ==> r@ == path@,
        granularity == 1 ==> r@ == path@ + seq![':'] + crate::paths::dec_digits(lineno as int),
        granularity > 1 ==> r@ == path@ + seq![':'] + crate::paths::dec_digits(
            if lineno - (lineno as int % granularity as int) >= 1 {
                lineno - (lineno as int % granularity as int)
            } else {
                1
            },
        ),
{
    if granularity == 0 {
        return path.to_owned();
    }
    let mut out = path.to_owned();
    out.append(":");
    proof {
        reveal_strlit(":");
        assert(":"@ =~= seq![':']);
    }
    if granularity == 1 {
        let digits = format_usize(lineno);
        out.append(digits.as_str());
        out
    } else {
        proof {
            assert(lineno % granularity <= lineno) by (nonlinear_arith)
                requires granularity >= 1;
        }
        let rounded: usize = lineno - (lineno % granularity);
        let clamped: usize = if rounded >= 1 {
            rounded
        } else {
            1
        };
        let digits = format_usize(clamped);
        out.append(digits.as_str());
        out
    }
}

/// The outer-link-stripped reconstruction of a Markdown string, or
/// nothing when the serializer rejects the stripped events.
pub open spec fn spec_stripped(s: Seq<char>) -> Option<Seq<char>> {
    let kept = link_stripped(crate::parse::extraction_of(s));
    let kb = crate::events::bare_events(kept);
    let tc = crate::render::spec_token_count(kb);
    if crate::render::render_ok(Seq::empty(), kb, tc) {
        Some(
            crate::render::trim_leading_newlines(
                crate::render::rendered_after(Seq::empty(), kb, tc),
            ),
        )
    } else {
        None
    }
}

/// The extraction fold of one document from its text alone.
pub open spec fn spec_doc_extracted(doc: Seq<char>) -> Option<
    Seq<(usize, Seq<char>, Seq<char>)>,
> {
    crate::messages::spec_extracted(
        crate::groups::model_groups(
            crate::parse::extraction_of(doc),
            0,
            0,
            false,
            false,
            Seq::empty(),
        ),
        0,
        Seq::empty(),
    )
}

/// Whether no extracted chapter content of the item's subtree holds
/// a code block, so extraction is pinned by the fold throughout.
pub open spec fn item_plain(it: BookItem) -> bool
    decreases it,
{
    match it {
        BookItem::Chapter(ch) => (ch.path is Some ==> !crate::groups::has_code_block(
            crate::parse::extraction_of(ch.content@),
        )) && forall|k: int|
            0 <= k < ch.sub_items@.len() ==> item_plain(#[trigger] ch.sub_items@[k]),
        _ => true,
    }
}

/// Whether extraction succeeds for every chapter of the item's
/// subtree that has a source path.
pub open spec fn item_extract_ok(it: BookItem) -> bool
    decreases it,
{
    match it {
        BookItem::Chapter(ch) => (ch.path is Some ==> spec_doc_extracted(ch.content@) is Some)
            && forall|k: int|
            0 <= k < ch.sub_items@.len() ==> item_extract_ok(#[trigger] ch.sub_items@[k]),
        _ => true,
    }
}

/// The segments of `s` between newlines, terminators dropped; one
/// more segment than newlines.
pub open spec fn nl_segments(s: Seq<char>) -> Seq<Seq<char>>
    decreases s.len(),
{
    if s.len() == 0 {
        seq![Seq::empty()]
    } else if s.last() == '\n' {
        nl_segments(s.drop_last()).push(Seq::empty())
    } else {
        let segs = nl_segments(s.drop_last());
        segs.update(segs.len() - 1, segs.last().push(s.last()))
    }
}

/// The lines of `s`: its newline segments, without a trailing empty
/// one.
pub open spec fn nl_lines(s: Seq<char>) -> Seq<Seq<char>> {
    let segs = nl_segments(s);
    if segs.last().len() == 0 {
        segs.drop_last()
    } else {
        segs
    }
}

/// The lines with consecutive duplicates collapsed.
pub open spec fn dedup_consec(lines: Seq<Seq<char>>) -> Seq<Seq<char>>
    decreases lines.len(),
{
    if lines.len() == 0 {
        Seq::empty()
    } else if lines.len() >= 2 && lines.last() == lines[lines.len() - 2] {
        dedup_consec(lines.drop_last())
    } else {
        dedup_consec(lines.drop_last()).push(lines.last())
    }
}

/// The lines joined with newlines.
pub open spec fn join_nl(lines: Seq<Seq<char>>) -> Seq<char>
    decreases lines.len(),
{
    if lines.len() == 0 {
        Seq::empty()
    } else if lines.len() == 1 {
        lines[0]
    } else {
        join_nl(lines.drop_last()) + seq!['\n'] + lines.last()
    }
}

proof fn lemma_nl_segments_nonempty(s: Seq<char>)
    ensures
        nl_segments(s).len() >= 1,
    decreases s.len(),
{
    if s.len() > 0 {
        lemma_nl_segments_nonempty(s.drop_last());
    }
}

/// The lines of `s`, split on newlines with terminators dropped.
fn split_lines(s: &str) -> (r: Vec<String>)
    ensures
        r@.map_values(|l: String| l@) == nl_lines(s@),
{
    let chars = str_chars(s);
    let mut out: Vec<String> = Vec::new();
    let mut cur = String::new();
    let mut i: usize = 0;
    proof {
        assert(s@.take(0) =~= Seq::<char>::empty());
        assert(out@.map_values(|l: String| l@).push(cur@) =~= nl_segments(s@.take(0)));
    }
    while i < chars.len()
        invariant
            0 <= i <= chars@.len(),
            chars@ == s@,
            out@.map_values(|l: String| l@).push(cur@) == nl_segments(s@.take(i as int)),
        decreases chars@.len() - i,
    {
        let ghost prev = out@.map_values(|l: String| l@);
        proof {
            lemma_nl_segments_nonempty(s@.take(i as int));
            assert(s@.take(i + 1).drop_last() =~= s@.take(i as int));
            assert(s@.take(i + 1).last() == s@[i as int]);
        }
        if chars[i] == '\n' {
            out.push(cur);
            cur = String::new();
            proof {
                assert(out@.map_values(|l: String| l@) =~= prev.push(
                    nl_segments(s@.take(i as int)).last(),
                ));
                assert(out@.map_values(|l: String| l@).push(cur@) =~= nl_segments(
                    s@.take(i as int),
                ).push(Seq::empty()));
            }
        } else {
            let ghost cur0 = cur@;
            crate::text::push_char(&mut cur, chars[i]);
            proof {
                let segs = nl_segments(s@.take(i as int));
                assert(segs == prev.push(cur0));
                assert(segs.last() == cur0);
                assert(cur@ == cur0 + seq![s@[i as int]]);
                assert(cur0 + seq![s@[i as int]] =~= cur0.push(s@[i as int]));
                assert(prev.push(cur@) =~= segs.update(segs.len() - 1, segs.last().push(
                    s@[i as int],
                )));
            }
        }
        i = i + 1;
    }
    proof {
        assert(s@.take(s@.len() as int) =~= s@);
        lemma_nl_segments_nonempty(s@);
    }
    if cur.as_str().unicode_len() > 0 {
        let ghost prev = out@.map_values(|l: String| l@);
        out.push(cur);
        proof {
            assert(out@.map_values(|l: String| l@) =~= prev.push(nl_segments(s@).last()));
            assert(nl_lines(s@) == nl_segments(s@));
        }
    } else {
        proof {
            assert(nl_segments(s@).last().len() == 0);
            assert(out@.map_values(|l: String| l@) =~= nl_segments(s@).drop_last());
        }
    }
    out
}

/// A message view with its source lines collapsed and re-wrapped.
pub open spec fn spec_dedup_source(
    v: (Seq<char>, Seq<char>, Seq<char>, Seq<char>, bool),
) -> (Seq<char>, Seq<char>, Seq<char>, Seq<char>, bool) {
    (v.0, v.1, crate::text::refilled(join_nl(dedup_consec(nl_lines(v.2))), 76), v.3, v.4)
}

proof fn lemma_dedup_nonempty(lines: Seq<Seq<char>>)
    requires
        lines.len() >= 1,
    ensures
        dedup_consec(lines).len() >= 1,
    decreases lines.len(),
{
    if lines.len() >= 2 && lines.last() == lines[lines.len() - 2] {
        lemma_dedup_nonempty(lines.drop_last());
    }
}

/// Collapse consecutive duplicate source lines of every message and
/// re-wrap the sources; everything else of every message is kept.
pub fn dedup_sources(catalog: &mut Catalog)
    requires
        catalog_wf(*old(catalog)),
    ensures
        catalog_wf(*final(catalog)),
        final(catalog).metadata == old(catalog).metadata,
        crate::catalog::msgs_view(final(catalog).messages@) == crate::catalog::msgs_view(
            old(catalog).messages@,
        ).map_values(|v: (Seq<char>, Seq<char>, Seq<char>, Seq<char>, bool)| spec_dedup_source(v)),
{
    let ghost pre = catalog.messages@;
    let ghost target = crate::catalog::msgs_view(pre).map_values(
        |v: (Seq<char>, Seq<char>, Seq<char>, Seq<char>, bool)| spec_dedup_source(v),
    );
    let mut i: usize = 0;
    while i < catalog.messages.len()
        invariant
            0 <= i <= catalog.messages@.len(),
            catalog.messages@.len() == pre.len(),
            catalog.metadata == old(catalog).metadata,
            catalog_wf(*catalog),
            target == crate::catalog::msgs_view(pre).map_values(
                |v: (Seq<char>, Seq<char>, Seq<char>, Seq<char>, bool)| spec_dedup_source(v),
            ),
            forall|j: int|
                i <= j < pre.len() ==> #[trigger] catalog.messages@[j] == pre[j],
            forall|j: int|
                0 <= j < i ==> #[trigger] crate::catalog::msg_view(catalog.messages@[j])
                    == target[j],
        decreases catalog.messages@.len() - i,
    {
        let lines = split_lines(catalog.messages[i].source.as_str());
        let ghost lv = lines@.map_values(|l: String| l@);
        let mut joined = String::new();
        let mut li: usize = 0;
        let mut last: Option<String> = None;
        let mut first = true;
        proof {
            assert(lv.take(0) =~= Seq::<Seq<char>>::empty());
        }
        while li < lines.len()
            invariant
                0 <= li <= lines@.len(),
                i < catalog.messages@.len(),
                lv == lines@.map_values(|l: String| l@),
                catalog_wf(*catalog),
                joined@ == join_nl(dedup_consec(lv.take(li as int))),
                first <==> dedup_consec(lv.take(li as int)).len() == 0,
                match last {
                    Some(p) => li > 0 && p@ == lv[li - 1] && dedup_consec(
                        lv.take(li as int),
                    ).len() > 0 && dedup_consec(lv.take(li as int)).last() == p@,
                    None => li == 0,
                },
            decreases lines@.len() - li,
        {
            let ghost dd = dedup_consec(lv.take(li as int));
            proof {
                assert(lv.take(li + 1).drop_last() =~= lv.take(li as int));
                assert(lv.take(li + 1).last() == lv[li as int]);
                assert(lv[li as int] == lines@[li as int]@);
            }
            let is_dup = match &last {
                Some(prev) => str_eq(prev.as_str(), lines[li].as_str()),
                None => false,
            };
            if !is_dup {
                proof {
                    assert(dedup_consec(lv.take(li + 1)) == dd.push(lv[li as int]));
                }
                if !first {
                    joined.append("\n");
                    proof {
                        reveal_strlit("\n");
                        assert("\n"@ =~= seq!['\n']);
                        assert(dd.push(lv[li as int]).drop_last() =~= dd);
                    }
                }
                first = false;
                joined.append(lines[li].as_str());
                last = Some(lines[li].clone());
            } else {
                proof {
                    assert(dedup_consec(lv.take(li + 1)) == dd);
                }
                last = Some(lines[li].clone());
            }
            li = li + 1;
        }
        proof {
            assert(lv.take(lv.len() as int) =~= lv);
        }
        let wrapped = wrap_sources(joined.as_str());
        let old_msg = &catalog.messages[i];
        let replacement = Message {
            msgid: old_msg.msgid.clone(),
            msgstr: old_msg.msgstr.clone(),
            source: wrapped,
            comments: old_msg.comments.clone(),
            flags: old_msg.flags.clone(),
        };
        let ghost grep = replacement;
        let ghost pre_now = catalog.messages@;
        catalog.messages.set(i, replacement);
        proof {
            assert(catalog.messages@ == pre_now.update(i as int, grep));
            assert(crate::catalog::msg_view(grep) == target[i as int]) by {
                assert(crate::catalog::msgs_view(pre)[i as int] == crate::catalog::msg_view(
                    pre[i as int],
                ));
                assert(target[i as int] == spec_dedup_source(
                    crate::catalog::msg_view(pre[i as int]),
                ));
                assert(grep.msgid@ == pre[i as int].msgid@);
                assert(grep.msgstr@ == pre[i as int].msgstr@);
                assert(grep.comments@ == pre[i as int].comments@);
                assert(crate::catalog::flags_view(grep.flags) == crate::catalog::flags_view(
                    pre[i as int].flags,
                ));
                assert(grep.source@ == crate::text::refilled(
                    join_nl(dedup_consec(nl_lines(pre[i as int].source@))),
                    76,
                ));
            }
            assert forall|a: int, b: int|
                0 <= a < b < catalog.messages@.len() implies crate::catalog::catalog_ids(
                catalog.messages@,
            )[a] != crate::catalog::catalog_ids(catalog.messages@)[b] by {
                assert(crate::catalog::catalog_ids(catalog.messages@)[a]
                    == catalog.messages@[a].msgid@);
                assert(crate::catalog::catalog_ids(catalog.messages@)[b]
                    == catalog.messages@[b].msgid@);
                assert(crate::catalog::catalog_ids(pre_now)[a] == pre_now[a].msgid@);
                assert(crate::catalog::catalog_ids(pre_now)[b] == pre_now[b].msgid@);
                if a == i {
                    assert(catalog.messages@[a].msgid@ == pre_now[i as int].msgid@);
                } else if b == i {
                    assert(catalog.messages@[b].msgid@ == pre_now[i as int].msgid@);
                }
            }
        }
        i = i + 1;
    }
    proof {
        assert forall|j: int|
            0 <= j < catalog.messages@.len() implies crate::catalog::msgs_view(
            catalog.messages@,
        )[j] == target[j] by {
            assert(crate::catalog::msgs_view(catalog.messages@)[j] == crate::catalog::msg_view(
                catalog.messages@[j],
            ));
        }
        assert(crate::catalog::msgs_view(catalog.messages@) =~= target);
    }
}

/// The configuration and content the extractor works from: the book
/// fields of the configuration, the summary document, the knobs, and
/// the time the template is created.
#[derive(Debug)]
pub struct RenderInput {
    /// The book title; empty for none.
    pub title: String,
    /// The book description; empty for none.
    pub description: String,
    /// The book language; empty for none.
    pub language: String,
    /// The source directory of the book, such as `src`.
    pub src_dir: String,
    /// The contents of the summary document.
    pub summary: String,
    /// The path of the summary document relative to the book root.
    pub summary_path: String,
    /// Line number rounding for source fields.
    pub granularity: usize,
    /// Depth at which the output splits into separate catalogs.
    pub depth: usize,
    /// The creation time, formatted for the catalog header.
    pub pot_creation_date: String,
    /// The items of the book in reading order.
    pub sections: Vec<BookItem>,
}

/// Whether a catalog's header carries the book's configuration.
pub open spec fn metadata_of_input(meta: CatalogMetadata, input: RenderInput) -> bool {
    &&& meta.project_id_version@ == input.title@
    &&& meta.language@ == input.language@
    &&& meta.pot_creation_date@ == input.pot_creation_date@
}

/// Whether neither the summary nor any extracted chapter content of
/// the book holds a code block.
pub open spec fn book_plain(input: RenderInput) -> bool {
    &&& !crate::groups::has_code_block(crate::parse::extraction_of(input.summary@))
    &&& forall|k: int| 0 <= k < input.sections@.len() ==> item_plain(#[trigger] input.sections@[k])
}

/// Whether the summary extracts and each of its messages takes its
/// outer link stripped.
pub open spec fn summary_ok(input: RenderInput) -> bool {
    match spec_doc_extracted(input.summary@) {
        None => false,
        Some(msgs) => forall|i: int|
            0 <= i < msgs.len() ==> spec_stripped((#[trigger] msgs[i]).1) is Some,
    }
}

/// Whether building the book's catalogs succeeds: the summary
/// extracts and strips, and every chapter with a source path
/// extracts.
pub open spec fn spec_book_ok(input: RenderInput) -> bool {
    &&& summary_ok(input)
    &&& forall|k: int|
        0 <= k < input.sections@.len() ==> item_extract_ok(#[trigger] input.sections@[k])
}

/// The leading msgids of the root catalog: the book title, then the
/// description, each when it has a visible character and, for the
/// description, when it differs from the title.
pub open spec fn spec_root_msgids(input: RenderInput) -> Seq<Seq<char>> {
    let t: Seq<Seq<char>> = if crate::messages::has_visible_char(input.title@) {
        seq![input.title@]
    } else {
        Seq::empty()
    };
    if crate::messages::has_visible_char(input.description@) && !(
    crate::messages::has_visible_char(input.title@) && input.description@ == input.title@) {
        t + seq![input.description@]
    } else {
        t
    }
}

/// Whether `new` keeps every leading message of `old` in place: the
/// msgid at each old position is unchanged, and an untranslated,
/// non-fuzzy entry stays untranslated and non-fuzzy.
pub open spec fn msgs_keys_ext(
    old: Seq<(Seq<char>, Seq<char>, Seq<char>, Seq<char>, bool)>,
    new: Seq<(Seq<char>, Seq<char>, Seq<char>, Seq<char>, bool)>,
) -> bool {
    &&& new.len() >= old.len()
    &&& forall|i: int|
        0 <= i < old.len() ==> {
            &&& (#[trigger] new[i]).0 == old[i].0
            &&& (old[i].1 == Seq::<char>::empty() ==> new[i].1 == Seq::<char>::empty())
            &&& (old[i].4 == false ==> new[i].4 == false)
        }
}

/// A message list keeps its own leading messages.
pub proof fn lemma_keys_ext_refl(a: Seq<(Seq<char>, Seq<char>, Seq<char>, Seq<char>, bool)>)
    ensures
        msgs_keys_ext(a, a),
{
}

/// Keeping leading messages is transitive.
pub proof fn lemma_keys_ext_trans(
    a: Seq<(Seq<char>, Seq<char>, Seq<char>, Seq<char>, bool)>,
    b: Seq<(Seq<char>, Seq<char>, Seq<char>, Seq<char>, bool)>,
    c: Seq<(Seq<char>, Seq<char>, Seq<char>, Seq<char>, bool)>,
)
    requires
        msgs_keys_ext(a, b),
        msgs_keys_ext(b, c),
    ensures
        msgs_keys_ext(a, c),
{
    assert forall|i: int| 0 <= i < a.len() implies (#[trigger] c[i]).0 == a[i].0 && (a[i].1
        == Seq::<char>::empty() ==> c[i].1 == Seq::<char>::empty()) && (a[i].4 == false ==> c[i].4
        == false) by {
        assert(b[i].0 == a[i].0);
    }
}

/// Adding one message keeps every existing position's msgid, and an
/// untranslated, non-fuzzy entry stays so.
pub proof fn lemma_add_message_keys(
    msgs: Seq<(Seq<char>, Seq<char>, Seq<char>, Seq<char>, bool)>,
    msgid: Seq<char>,
    source: Seq<char>,
    comment: Seq<char>,
)
    ensures
        msgs_keys_ext(msgs, crate::catalog::spec_add_message(msgs, msgid, source, comment)),
{
    let k = crate::catalog::find_index_v(msgs, msgid);
    let new = crate::catalog::spec_add_message(msgs, msgid, source, comment);
    crate::catalog::lemma_find_index_v_props(msgs, msgid);
    assert forall|i: int| 0 <= i < msgs.len() implies (#[trigger] new[i]).0 == msgs[i].0 && (
    msgs[i].1 == Seq::<char>::empty() ==> new[i].1 == Seq::<char>::empty()) && (msgs[i].4 == false
        ==> new[i].4 == false) by {
        if k < msgs.len() && i == k {
            assert(msgs[k].0 == msgid);
        } else {
            assert(new[i] == msgs[i]);
        }
    }
}

/// The source line [`build_source`] produces: the path, and beyond
/// granularity zero a colon and the rounded line number.
pub open spec fn spec_source(path: Seq<char>, lineno: int, granularity: int) -> Seq<char> {
    if granularity == 0 {
        path
    } else if granularity == 1 {
        path + seq![':'] + crate::paths::dec_digits(lineno)
    } else {
        path + seq![':'] + crate::paths::dec_digits(
            if lineno - lineno % granularity >= 1 {
                lineno - lineno % granularity
            } else {
                1
            },
        )
    }
}

/// The catalog messages after adding every extracted message from
/// `i` on, each with its built source line and comment.
pub open spec fn spec_added(
    cur: Seq<(Seq<char>, Seq<char>, Seq<char>, Seq<char>, bool)>,
    extracted: Seq<(usize, Seq<char>, Seq<char>)>,
    src_path: Seq<char>,
    granularity: int,
    i: int,
) -> Seq<(Seq<char>, Seq<char>, Seq<char>, Seq<char>, bool)>
    decreases extracted.len() - i,
{
    if i < 0 || i >= extracted.len() {
        cur
    } else {
        spec_added(
            crate::catalog::spec_add_message(
                cur,
                extracted[i].1,
                spec_source(src_path, extracted[i].0 as int, granularity),
                extracted[i].2,
            ),
            extracted,
            src_path,
            granularity,
            i + 1,
        )
    }
}

/// The first map index whose key is `path`, or the number of
/// entries.
pub open spec fn spec_map_index(
    entries: Seq<(String, Catalog)>,
    path: Seq<char>,
    i: int,
) -> int
    decreases entries.len() - i,
{
    if i < 0 || i >= entries.len() {
        i
    } else if entries[i].0@ == path {
        i
    } else {
        spec_map_index(entries, path, i + 1)
    }
}

/// The output path a chapter lands under when the walk enters the
/// component `name` from builder state `b`: the default catalog
/// path at bound zero, otherwise the joined, disambiguated segments
/// with the `.pot` suffix, with `name`'s slug appended only within
/// the depth bound.
pub open spec fn walk_destination(b: UniquePathBuilder, name: Seq<char>) -> Seq<char> {
    let d = if b.depth() < usize::MAX {
        b.depth() + 1
    } else {
        b.depth()
    };
    if b.bound() == 0 || d == 0 {
        "messages.pot"@
    } else if d > b.bound() {
        crate::paths::join_slash(crate::paths::spec_format(b.path(), b.freq())) + ".pot"@
    } else {
        let p = crate::paths::spec_format(b.path(), b.freq()).push(
            crate::paths::spec_slug(name),
        );
        crate::paths::join_slash(
            crate::paths::spec_format(p, crate::paths::spec_bump(b.freq(), p)),
        ) + ".pot"@
    }
}

/// The first-match index never lies before where the scan began.
pub proof fn lemma_map_index_lb(entries: Seq<(String, Catalog)>, path: Seq<char>, i: int)
    requires
        0 <= i,
    ensures
        spec_map_index(entries, path, i) >= i,
    decreases entries.len() - i,
{
    if i < entries.len() && entries[i].0@ != path {
        lemma_map_index_lb(entries, path, i + 1);
    }
}

fn generate_catalog_metadata(input: &RenderInput) -> (r: CatalogMetadata)
    ensures
        metadata_of_input(r, *input),
{
    CatalogMetadata {
        project_id_version: input.title.clone(),
        language: input.language.clone(),
        pot_creation_date: input.pot_creation_date.clone(),
        po_revision_date: String::new(),
        mime_version: String::from_str("1.0"),
        content_type: String::from_str("text/plain; charset=UTF-8"),
        content_transfer_encoding: String::from_str("8bit"),
    }
}

/// The catalogs keyed by output path.
pub struct CatalogMap {
    pub entries: Vec<(String, Catalog)>,
}

/// Every catalog of the map has unique msgids.
pub open spec fn catalog_map_wf(m: CatalogMap) -> bool {
    forall|i: int| 0 <= i < m.entries@.len() ==> catalog_wf((#[trigger] m.entries@[i]).1)
}

/// Whether every key of the map is the default single-catalog
/// path.
pub open spec fn catalog_map_default_keys(m: CatalogMap) -> bool {
    forall|i: int| 0 <= i < m.entries@.len() ==> (#[trigger] m.entries@[i]).0@ == "messages.pot"@
}

/// Every catalog of the map carries the book's header.
pub open spec fn catalog_map_meta(m: CatalogMap, input: RenderInput) -> bool {
    forall|i: int|
        0 <= i < m.entries@.len() ==> metadata_of_input((#[trigger] m.entries@[i]).1.metadata, input)
}

fn map_position(map: &CatalogMap, path: &str) -> (r: Option<usize>)
    ensures
        r matches Some(i) ==> i < map.entries@.len() && i as int == spec_map_index(
            map.entries@,
            path@,
            0,
        ) && map.entries@[i as int].0@ == path@,
        r is None ==> spec_map_index(map.entries@, path@, 0) == map.entries@.len(),
{
    let mut i: usize = 0;
    while i < map.entries.len()
        invariant
            0 <= i <= map.entries@.len(),
            spec_map_index(map.entries@, path@, 0) == spec_map_index(
                map.entries@,
                path@,
                i as int,
            ),
        decreases map.entries@.len() - i,
    {
        if str_eq(map.entries[i].0.as_str(), path) {
            return Some(i);
        }
        i = i + 1;
    }
    None
}

/// Append the messages of one chapter to the catalog at `path`,
/// creating the catalog if the path is new.
fn add_chapter_messages(
    map: &mut CatalogMap,
    input: &RenderInput,
    path: String,
    source_path: &str,
    content: &str,
) -> (r: Result<(), ReconstructError>)
    requires
        catalog_map_wf(*old(map)),
        catalog_map_meta(*old(map), *input),
    ensures
        catalog_map_wf(*final(map)),
        catalog_map_meta(*final(map), *input),
        final(map).entries@.len() >= old(map).entries@.len(),
        catalog_map_default_keys(*old(map)) && path@ == "messages.pot"@
            ==> catalog_map_default_keys(*final(map)),
        !crate::groups::has_code_block(crate::parse::extraction_of(content@)) ==> (r is Ok
            <==> spec_doc_extracted(content@) is Some),
        forall|i: int|
            0 <= i < old(map).entries@.len() ==> msgs_keys_ext(
                crate::catalog::msgs_view((#[trigger] old(map).entries@[i]).1.messages@),
                crate::catalog::msgs_view(final(map).entries@[i].1.messages@),
            ),
        forall|i: int|
            0 <= i < old(map).entries@.len() ==> (#[trigger] final(map).entries@[i]).0 == old(
                map,
            ).entries@[i].0,
        r is Ok ==> ({
            let at = spec_map_index(old(map).entries@, path@, 0);
            &&& at < final(map).entries@.len()
            &&& final(map).entries@[at].0@ == path@
        }),
        !crate::groups::has_code_block(crate::parse::extraction_of(content@)) && r is Ok ==> ({
            let xv = spec_doc_extracted(content@)->Some_0;
            let at = spec_map_index(old(map).entries@, path@, 0);
            let cur = if at < old(map).entries@.len() {
                crate::catalog::msgs_view(old(map).entries@[at].1.messages@)
            } else {
                Seq::empty()
            };
            crate::catalog::msgs_view(final(map).entries@[at].1.messages@) == spec_added(
                cur,
                xv,
                source_path@,
                input.granularity as int,
                0,
            )
        }),
{
    let ghost gpath = path@;
    let ghost ghyp = !crate::groups::has_code_block(crate::parse::extraction_of(content@));
    let extracted = match extract_messages(content) {
        Ok(e) => e,
        Err(e) => {
            return Err(e);
        },
    };
    let ghost xv = crate::messages::messages_view(extracted@);
    proof {
        if ghyp {
            assert(spec_doc_extracted(content@) == Some(xv));
        }
    }
    let ghost gat = spec_map_index(map.entries@, gpath, 0);
    let at = match map_position(map, path.as_str()) {
        Some(i) => i,
        None => {
            let fresh = Catalog::new(generate_catalog_metadata(input));
            let at = map.entries.len();
            map.entries.push((path, fresh));
            proof {
                assert forall|i: int|
                    0 <= i < map.entries@.len() implies catalog_wf(
                    (#[trigger] map.entries@[i]).1,
                ) && metadata_of_input(map.entries@[i].1.metadata, *input) by {
                    if i < map.entries@.len() - 1 {
                        assert(catalog_wf(old(map).entries@[i].1));
                        assert(metadata_of_input(old(map).entries@[i].1.metadata, *input));
                    }
                }
                if catalog_map_default_keys(*old(map)) && gpath == "messages.pot"@ {
                    assert forall|i: int|
                        0 <= i < map.entries@.len() implies (#[trigger] map.entries@[i]).0@
                        == "messages.pot"@ by {
                        if i < map.entries@.len() - 1 {
                            assert(old(map).entries@[i].0@ == "messages.pot"@);
                        }
                    }
                }
            }
            at
        },
    };
    let ghost entries0 = map.entries@;
    let ghost cur0 = if (gat as int) < old(map).entries@.len() {
        crate::catalog::msgs_view(old(map).entries@[gat as int].1.messages@)
    } else {
        Seq::<(Seq<char>, Seq<char>, Seq<char>, Seq<char>, bool)>::empty()
    };
    let (key, mut catalog) = map.entries.remove(at);
    proof {
        assert(entries0[at as int].1 == catalog);
        assert(entries0[at as int].0 == key);
        assert(catalog_wf(catalog));
        assert(metadata_of_input(catalog.metadata, *input));
        lemma_keys_ext_refl(crate::catalog::msgs_view(catalog.messages@));
        assert(at as int == gat);
        assert(key@ == gpath);
        assert(crate::catalog::msgs_view(catalog.messages@) =~= cur0);
    }
    let mut mi: usize = 0;
    while mi < extracted.len()
        invariant
            0 <= mi <= extracted@.len(),
            catalog_wf(catalog),
            metadata_of_input(catalog.metadata, *input),
            at < entries0.len(),
            msgs_keys_ext(
                crate::catalog::msgs_view(entries0[at as int].1.messages@),
                crate::catalog::msgs_view(catalog.messages@),
            ),
            xv == crate::messages::messages_view(extracted@),
            spec_added(
                crate::catalog::msgs_view(catalog.messages@),
                xv,
                source_path@,
                input.granularity as int,
                mi as int,
            ) == spec_added(cur0, xv, source_path@, input.granularity as int, 0),
        decreases extracted@.len() - mi,
    {
        let lineno: usize = extracted[mi].0;
        let source = build_source(source_path, lineno, input.granularity);
        let ghost prev = crate::catalog::msgs_view(catalog.messages@);
        proof {
            assert(xv[mi as int] == (extracted@[mi as int].0, extracted@[mi as int].1.message@,
            extracted@[mi as int].1.comment@));
            assert(source@ == spec_source(source_path@, lineno as int, input.granularity as int));
        }
        add_message(
            &mut catalog,
            extracted[mi].1.message.as_str(),
            source.as_str(),
            extracted[mi].1.comment.as_str(),
        );
        proof {
            lemma_add_message_keys(
                prev,
                extracted@[mi as int].1.message@,
                source@,
                extracted@[mi as int].1.comment@,
            );
            lemma_keys_ext_trans(
                crate::catalog::msgs_view(entries0[at as int].1.messages@),
                prev,
                crate::catalog::msgs_view(catalog.messages@),
            );
            assert(spec_added(prev, xv, source_path@, input.granularity as int, mi as int)
                == spec_added(
                crate::catalog::msgs_view(catalog.messages@),
                xv,
                source_path@,
                input.granularity as int,
                mi + 1,
            ));
        }
        mi = mi + 1;
    }
    let ghost gcat_msgs = crate::catalog::msgs_view(catalog.messages@);
    let ghost entries1 = map.entries@;
    map.entries.insert(at, (key, catalog));
    proof {
        assert forall|i: int|
            0 <= i < map.entries@.len() implies catalog_wf((#[trigger] map.entries@[i]).1)
            && metadata_of_input(map.entries@[i].1.metadata, *input) && (#[trigger] map.entries@[
            i]).0 == (if i < at {
            entries0[i].0
        } else if i == at {
            key
        } else {
            entries0[i].0
        }) by {
            if i < at {
                assert(map.entries@[i] == entries1[i]);
                assert(entries1[i] == entries0.remove(at as int)[i]);
                assert(entries0.remove(at as int)[i] == entries0[i]);
            } else if i > at {
                assert(map.entries@[i] == entries1[i - 1]);
                assert(entries1[i - 1] == entries0.remove(at as int)[i - 1]);
                assert(entries0.remove(at as int)[i - 1] == entries0[i]);
            }
        }
        assert(spec_added(
            gcat_msgs,
            xv,
            source_path@,
            input.granularity as int,
            extracted@.len() as int,
        ) == gcat_msgs);
        assert(crate::catalog::msgs_view(map.entries@[at as int].1.messages@) == gcat_msgs);
        assert(map.entries@[at as int].0 == key);
        assert forall|i: int| 0 <= i < old(map).entries@.len() implies msgs_keys_ext(
            crate::catalog::msgs_view((#[trigger] old(map).entries@[i]).1.messages@),
            crate::catalog::msgs_view(map.entries@[i].1.messages@),
        ) by {
            assert(old(map).entries@[i] == entries0[i]);
            if i == at {
                assert(crate::catalog::msgs_view(map.entries@[i].1.messages@) == gcat_msgs);
            } else if i < at {
                assert(map.entries@[i] == entries1[i]);
                assert(entries1[i] == entries0.remove(at as int)[i]);
                assert(entries0.remove(at as int)[i] == entries0[i]);
                lemma_keys_ext_refl(crate::catalog::msgs_view(entries0[i].1.messages@));
            } else {
                assert(map.entries@[i] == entries1[i - 1]);
                assert(entries1[i - 1] == entries0.remove(at as int)[i - 1]);
                assert(entries0.remove(at as int)[i - 1] == entries0[i]);
                lemma_keys_ext_refl(crate::catalog::msgs_view(entries0[i].1.messages@));
            }
        }
    }
    Ok(())
}

fn walk_chapter(
    map: &mut CatalogMap,
    input: &RenderInput,
    builder: &mut UniquePathBuilder,
    chapter: &BookChapter,
) -> (r: Result<(), ReconstructError>)
    requires
        catalog_map_wf(*old(map)),
        catalog_map_meta(*old(map), *input),
    ensures
        catalog_map_wf(*final(map)),
        catalog_map_meta(*final(map), *input),
        final(map).entries@.len() >= old(map).entries@.len(),
        final(builder).bound() == old(builder).bound(),
        old(builder).bound() == 0 && catalog_map_default_keys(*old(map))
            ==> catalog_map_default_keys(*final(map)),
        item_plain(BookItem::Chapter(*chapter)) ==> (r is Ok <==> item_extract_ok(
            BookItem::Chapter(*chapter),
        )),
        forall|i: int|
            0 <= i < old(map).entries@.len() ==> msgs_keys_ext(
                crate::catalog::msgs_view((#[trigger] old(map).entries@[i]).1.messages@),
                crate::catalog::msgs_view(final(map).entries@[i].1.messages@),
            ),
        forall|i: int|
            0 <= i < old(map).entries@.len() ==> (#[trigger] final(map).entries@[i]).0 == old(
                map,
            ).entries@[i].0,
        chapter.path is Some && r is Ok ==> ({
            let dest = walk_destination(*old(builder), chapter.name@);
            let at = spec_map_index(old(map).entries@, dest, 0);
            &&& at < final(map).entries@.len()
            &&& final(map).entries@[at].0@ == dest
            &&& (!crate::groups::has_code_block(
                crate::parse::extraction_of(chapter.content@),
            ) ==> msgs_keys_ext(
                spec_added(
                    if at < old(map).entries@.len() {
                        crate::catalog::msgs_view(old(map).entries@[at].1.messages@)
                    } else {
                        Seq::empty()
                    },
                    spec_doc_extracted(chapter.content@)->Some_0,
                    input.src_dir@ + seq!['/'] + (chapter.path->Some_0)@,
                    input.granularity as int,
                    0,
                ),
                crate::catalog::msgs_view(final(map).entries@[at].1.messages@),
            ))
        }),
    decreases *chapter,
{
    let ghost hyp = item_plain(BookItem::Chapter(*chapter));
    let ghost hypcb = (chapter.path is Some && !crate::groups::has_code_block(
        crate::parse::extraction_of(chapter.content@),
    ));
    let ghost mut gdest: Seq<char> = Seq::empty();
    let ghost mut wat: int = 0;
    let ghost mut gstart: Seq<(Seq<char>, Seq<char>, Seq<char>, Seq<char>, bool)> = Seq::empty();
    builder.push(chapter.name.as_str());
    match &chapter.path {
        Some(chapter_path) => {
            let mut source_path = input.src_dir.clone();
            source_path.append("/");
            source_path.append(chapter_path.as_str());
            proof {
                reveal_strlit("/");
                assert("/"@ =~= seq!['/']);
                assert(source_path@ == input.src_dir@ + seq!['/'] + (chapter.path->Some_0)@);
            }
            let destination = builder.get();
            proof {
                assert(destination@ == walk_destination(*old(builder), chapter.name@));
                gdest = destination@;
                wat = spec_map_index(map.entries@, gdest, 0);
                gstart = spec_added(
                    if wat < map.entries@.len() {
                        crate::catalog::msgs_view(map.entries@[wat].1.messages@)
                    } else {
                        Seq::empty()
                    },
                    spec_doc_extracted(chapter.content@)->Some_0,
                    input.src_dir@ + seq!['/'] + (chapter.path->Some_0)@,
                    input.granularity as int,
                    0,
                );
            }
            match add_chapter_messages(
                map,
                input,
                destination,
                source_path.as_str(),
                chapter.content.as_str(),
            ) {
                Ok(()) => {},
                Err(e) => {
                    proof {
                        if hyp {
                            assert(spec_doc_extracted(chapter.content@) is None);
                            assert(!item_extract_ok(BookItem::Chapter(*chapter)));
                        }
                    }
                    return Err(e);
                },
            }
            proof {
                if hypcb {
                    lemma_keys_ext_refl(
                        crate::catalog::msgs_view(map.entries@[wat].1.messages@),
                    );
                }
                assert(gdest == walk_destination(*old(builder), chapter.name@));
                assert(wat == spec_map_index(old(map).entries@, gdest, 0));
                lemma_map_index_lb(old(map).entries@, gdest, 0);
                assert(0 <= wat < map.entries@.len());
                assert(map.entries@[wat].0@ == gdest);
            }
        },
        None => {},
    }
    let mut k: usize = 0;
    while k < chapter.sub_items.len()
        invariant
            0 <= k <= chapter.sub_items@.len(),
            catalog_map_wf(*map),
            catalog_map_meta(*map, *input),
            map.entries@.len() >= old(map).entries@.len(),
            builder.bound() == old(builder).bound(),
            old(builder).bound() == 0 && catalog_map_default_keys(*old(map))
                ==> catalog_map_default_keys(*map),
            hyp == item_plain(BookItem::Chapter(*chapter)),
            hyp ==> (chapter.path is Some ==> spec_doc_extracted(chapter.content@) is Some),
            hyp ==> forall|x: int|
                0 <= x < k ==> item_extract_ok(#[trigger] chapter.sub_items@[x]),
            forall|i: int|
                0 <= i < old(map).entries@.len() ==> msgs_keys_ext(
                    crate::catalog::msgs_view((#[trigger] old(map).entries@[i]).1.messages@),
                    crate::catalog::msgs_view(map.entries@[i].1.messages@),
                ),
            forall|i: int|
                0 <= i < old(map).entries@.len() ==> (#[trigger] map.entries@[i]).0 == old(
                    map,
                ).entries@[i].0,
            hypcb == (chapter.path is Some && !crate::groups::has_code_block(
                crate::parse::extraction_of(chapter.content@),
            )),
            chapter.path is Some ==> {
                &&& gdest == walk_destination(*old(builder), chapter.name@)
                &&& wat == spec_map_index(old(map).entries@, gdest, 0)
                &&& 0 <= wat < map.entries@.len()
                &&& map.entries@[wat].0@ == gdest
            },
            hypcb ==> gstart == spec_added(
                if wat < old(map).entries@.len() {
                    crate::catalog::msgs_view(old(map).entries@[wat].1.messages@)
                } else {
                    Seq::empty()
                },
                spec_doc_extracted(chapter.content@)->Some_0,
                input.src_dir@ + seq!['/'] + (chapter.path->Some_0)@,
                input.granularity as int,
                0,
            ),
            hypcb ==> msgs_keys_ext(
                gstart,
                crate::catalog::msgs_view(map.entries@[wat].1.messages@),
            ),
        decreases chapter.sub_items@.len() - k,
    {
        match &chapter.sub_items[k] {
            BookItem::Chapter(sub) => {
                proof {
                    broadcast use vstd::std_specs::vec::axiom_vec_index_decreases;
                    assert(decreases_to!(*chapter => chapter.sub_items));
                    assert(decreases_to!(chapter.sub_items => chapter.sub_items[k as int]));
                    if hyp {
                        assert(item_plain(chapter.sub_items@[k as int]));
                    }
                }
                let ghost pre_entries = map.entries@;
                match walk_chapter(map, input, builder, sub) {
                    Ok(()) => {},
                    Err(e) => {
                        proof {
                            if hyp {
                                assert(!item_extract_ok(chapter.sub_items@[k as int]));
                                assert(!item_extract_ok(BookItem::Chapter(*chapter)));
                            }
                            assert forall|i: int|
                                0 <= i < old(map).entries@.len() implies msgs_keys_ext(
                                crate::catalog::msgs_view(
                                    (#[trigger] old(map).entries@[i]).1.messages@,
                                ),
                                crate::catalog::msgs_view(map.entries@[i].1.messages@),
                            ) by {
                                lemma_keys_ext_trans(
                                    crate::catalog::msgs_view(old(map).entries@[i].1.messages@),
                                    crate::catalog::msgs_view(pre_entries[i].1.messages@),
                                    crate::catalog::msgs_view(map.entries@[i].1.messages@),
                                );
                            }
                        }
                        return Err(e);
                    },
                }
                proof {
                    assert forall|i: int|
                        0 <= i < old(map).entries@.len() implies msgs_keys_ext(
                        crate::catalog::msgs_view((#[trigger] old(map).entries@[i]).1.messages@),
                        crate::catalog::msgs_view(map.entries@[i].1.messages@),
                    ) by {
                        lemma_keys_ext_trans(
                            crate::catalog::msgs_view(old(map).entries@[i].1.messages@),
                            crate::catalog::msgs_view(pre_entries[i].1.messages@),
                            crate::catalog::msgs_view(map.entries@[i].1.messages@),
                        );
                    }
                    if chapter.path is Some {
                        assert(map.entries@[wat].0 == pre_entries[wat].0);
                        if hypcb {
                            lemma_keys_ext_trans(
                                gstart,
                                crate::catalog::msgs_view(pre_entries[wat].1.messages@),
                                crate::catalog::msgs_view(map.entries@[wat].1.messages@),
                            );
                        }
                    }
                }
            },
            _ => {},
        }
        k = k + 1;
    }
    builder.pop();
    proof {
        if hyp {
            assert(item_extract_ok(BookItem::Chapter(*chapter)));
        }
    }
    Ok(())
}

/// Build the catalogs of a book, keyed by output path.
///
/// The root catalog takes the book title and description, then every
/// message of the summary with its outer link stripped, then the
/// messages of every chapter, walked in reading order.  Output paths
/// come from the path builder at the configured depth, so duplicate
/// part or chapter names get disambiguated paths.  In every produced
/// catalog the msgid values are unique.
pub fn create_catalogs(input: &RenderInput) -> (r: Result<CatalogMap, ReconstructError>)
    ensures
        r matches Ok(m) ==> catalog_map_wf(m),
        r matches Ok(m) ==> m.entries@.len() >= 1,
        r matches Ok(m) ==> catalog_map_meta(m, *input),
        r matches Ok(m) ==> input.depth == 0 ==> catalog_map_default_keys(m),
        book_plain(*input) ==> (r is Ok <==> spec_book_ok(*input)),
        r matches Ok(m) ==> ({
            let ids = spec_root_msgids(*input);
            let ms = crate::catalog::msgs_view(m.entries@[0].1.messages@);
            &&& ms.len() >= ids.len()
            &&& forall|i: int|
                0 <= i < ids.len() ==> (#[trigger] ms[i]).0 == ids[i] && ms[i].1
                    == Seq::<char>::empty() && ms[i].4 == false
        }),
{
    let ghost hyp = book_plain(*input);
    let ghost ids = spec_root_msgids(*input);
    let mut catalog = Catalog::new(generate_catalog_metadata(input));
    let book_toml = "book.toml";
    let ghost ms0 = crate::catalog::msgs_view(catalog.messages@);
    proof {
        assert(ms0 =~= Seq::<(Seq<char>, Seq<char>, Seq<char>, Seq<char>, bool)>::empty());
    }
    if crate::messages::has_visible(input.title.as_str()) {
        let source = build_source(book_toml, 1, input.granularity);
        add_message(&mut catalog, input.title.as_str(), source.as_str(), "Book title");
        proof {
            assert(crate::catalog::msgs_view(catalog.messages@).len() == 1);
            assert(crate::catalog::msgs_view(catalog.messages@)[0] == (input.title@,
            Seq::<char>::empty(), source@, "Book title"@, false));
        }
    }
    let ghost ms1 = crate::catalog::msgs_view(catalog.messages@);
    if crate::messages::has_visible(input.description.as_str()) {
        let source = build_source(book_toml, 1, input.granularity);
        add_message(&mut catalog, input.description.as_str(), source.as_str(), "Book description");
        proof {
            if ms1.len() == 1 && ms1[0].0 == input.description@ {
                assert(crate::catalog::find_index_v(ms1, input.description@) == 0);
                assert(crate::catalog::msgs_view(catalog.messages@).len() == 1);
            } else if ms1.len() == 1 {
                assert(ms1.drop_first().len() == 0);
                assert(crate::catalog::find_index_v(ms1.drop_first(), input.description@) == 0);
                assert(crate::catalog::find_index_v(ms1, input.description@) == 1);
                assert(crate::catalog::msgs_view(catalog.messages@)[1] == (input.description@,
                Seq::<char>::empty(), source@, "Book description"@, false));
            } else {
                assert(crate::catalog::find_index_v(ms1, input.description@) == 0);
                assert(crate::catalog::msgs_view(catalog.messages@)[0] == (input.description@,
                Seq::<char>::empty(), source@, "Book description"@, false));
            }
        }
    }
    let ghost base = crate::catalog::msgs_view(catalog.messages@);
    proof {
        assert(base.len() >= ids.len() && forall|i: int|
            0 <= i < ids.len() ==> (#[trigger] base[i]).0 == ids[i] && base[i].1
                == Seq::<char>::empty() && base[i].4 == false) by {
            if crate::messages::has_visible_char(input.title@) {
                if crate::messages::has_visible_char(input.description@) {
                    if input.description@ == input.title@ {
                        assert(ids =~= seq![input.title@]);
                    } else {
                        assert(ids =~= seq![input.title@] + seq![input.description@]);
                        assert(ids.len() == 2);
                        assert(ids[0] == input.title@);
                        assert(ids[1] == input.description@);
                    }
                } else {
                    assert(ids =~= seq![input.title@]);
                }
            } else {
                if crate::messages::has_visible_char(input.description@) {
                    assert(ids
                        =~= Seq::<Seq<char>>::empty() + seq![input.description@]);
                    assert(ids.len() == 1);
                    assert(ids[0] == input.description@);
                } else {
                    assert(ids =~= Seq::<Seq<char>>::empty());
                }
            }
        }
    }
    let summary_messages = match extract_messages(input.summary.as_str()) {
        Ok(m) => m,
        Err(e) => {
            proof {
                if hyp {
                    assert(spec_doc_extracted(input.summary@) is None);
                    assert(!summary_ok(*input));
                }
            }
            return Err(e);
        },
    };
    let ghost smv = crate::messages::messages_view(summary_messages@);
    proof {
        if hyp {
            assert(spec_doc_extracted(input.summary@) == Some(smv));
        }
    }
    proof {
        lemma_keys_ext_refl(base);
    }
    let mut si: usize = 0;
    while si < summary_messages.len()
        invariant
            0 <= si <= summary_messages@.len(),
            catalog_wf(catalog),
            metadata_of_input(catalog.metadata, *input),
            hyp == book_plain(*input),
            smv == crate::messages::messages_view(summary_messages@),
            hyp ==> spec_doc_extracted(input.summary@) == Some(smv),
            hyp ==> forall|i: int| 0 <= i < si ==> spec_stripped((#[trigger] smv[i]).1) is Some,
            ids == spec_root_msgids(*input),
            base.len() >= ids.len(),
            forall|i: int|
                0 <= i < ids.len() ==> (#[trigger] base[i]).0 == ids[i] && base[i].1
                    == Seq::<char>::empty() && base[i].4 == false,
            msgs_keys_ext(base, crate::catalog::msgs_view(catalog.messages@)),
        decreases summary_messages@.len() - si,
    {
        let lineno: usize = summary_messages[si].0;
        let source = build_source(input.summary_path.as_str(), lineno, input.granularity);
        proof {
            assert(smv[si as int].1 == summary_messages@[si as int].1.message@);
        }
        let stripped = match strip_link(summary_messages[si].1.message.as_str()) {
            Ok(s) => s,
            Err(e) => {
                proof {
                    if hyp {
                        assert(spec_stripped(smv[si as int].1) is None);
                        assert(!summary_ok(*input));
                    }
                }
                return Err(e);
            },
        };
        let ghost prev = crate::catalog::msgs_view(catalog.messages@);
        add_message(
            &mut catalog,
            stripped.as_str(),
            source.as_str(),
            summary_messages[si].1.comment.as_str(),
        );
        proof {
            lemma_add_message_keys(prev, stripped@, source@, summary_messages@[si as int].1.comment@);
            lemma_keys_ext_trans(base, prev, crate::catalog::msgs_view(catalog.messages@));
        }
        si = si + 1;
    }
    proof {
        if hyp {
            assert(summary_ok(*input));
        }
    }
    let mut map = CatalogMap { entries: Vec::new() };
    proof {
        assert(catalog_map_wf(map));
    }
    let mut builder = UniquePathBuilder::new(input.depth);
    builder.push("summary");
    builder.push("summary");
    let summary_dest = builder.get();
    let ghost gdest = summary_dest@;
    map.entries.push((summary_dest, catalog));
    proof {
        assert forall|i: int|
            0 <= i < map.entries@.len() implies catalog_wf((#[trigger] map.entries@[i]).1)
            && metadata_of_input(map.entries@[i].1.metadata, *input) by {}
        if input.depth == 0 {
            assert forall|i: int|
                0 <= i < map.entries@.len() implies (#[trigger] map.entries@[i]).0@
                == "messages.pot"@ by {
                assert(map.entries@[i].0@ == gdest);
            }
        }
    }
    builder.pop();
    let mut k: usize = 0;
    while k < input.sections.len()
        invariant
            0 <= k <= input.sections@.len(),
            catalog_map_wf(map),
            catalog_map_meta(map, *input),
            map.entries@.len() >= 1,
            builder.bound() == input.depth as int,
            input.depth == 0 ==> catalog_map_default_keys(map),
            hyp == book_plain(*input),
            hyp ==> summary_ok(*input),
            hyp ==> forall|x: int| 0 <= x < k ==> item_extract_ok(#[trigger] input.sections@[x]),
            ids == spec_root_msgids(*input),
            base.len() >= ids.len(),
            forall|i: int|
                0 <= i < ids.len() ==> (#[trigger] base[i]).0 == ids[i] && base[i].1
                    == Seq::<char>::empty() && base[i].4 == false,
            msgs_keys_ext(base, crate::catalog::msgs_view(map.entries@[0].1.messages@)),
        decreases input.sections@.len() - k,
    {
        match &input.sections[k] {
            BookItem::PartTitle(title) => {
                builder.pop();
                builder.push(title.as_str());
            },
            BookItem::Chapter(chapter) => {
                proof {
                    if hyp {
                        assert(item_plain(input.sections@[k as int]));
                    }
                }
                let ghost pre0 = crate::catalog::msgs_view(map.entries@[0].1.messages@);
                match walk_chapter(&mut map, input, &mut builder, chapter) {
                    Ok(()) => {},
                    Err(e) => {
                        proof {
                            if hyp {
                                assert(!item_extract_ok(input.sections@[k as int]));
                                assert(!spec_book_ok(*input));
                            }
                        }
                        return Err(e);
                    },
                }
                proof {
                    lemma_keys_ext_trans(
                        base,
                        pre0,
                        crate::catalog::msgs_view(map.entries@[0].1.messages@),
                    );
                }
            },
            BookItem::Separator => {},
        }
        k = k + 1;
    }
    proof {
        if hyp {
            assert(spec_book_ok(*input));
        }
    }
    let mut mi: usize = 0;
    while mi < map.entries.len()
        invariant
            0 <= mi <= map.entries@.len(),
            catalog_map_wf(map),
            catalog_map_meta(map, *input),
            map.entries@.len() >= 1,
            input.depth == 0 ==> catalog_map_default_keys(map),
            ids == spec_root_msgids(*input),
            base.len() >= ids.len(),
            forall|i: int|
                0 <= i < ids.len() ==> (#[trigger] base[i]).0 == ids[i] && base[i].1
                    == Seq::<char>::empty() && base[i].4 == false,
            msgs_keys_ext(base, crate::catalog::msgs_view(map.entries@[0].1.messages@)),
        decreases map.entries@.len() - mi,
    {
        let ghost entries0 = map.entries@;
        let (key, mut cat) = map.entries.remove(mi);
        proof {
            assert(entries0[mi as int].1 == cat);
            assert(entries0[mi as int].0 == key);
        }
        let ghost pre_cat = crate::catalog::msgs_view(cat.messages@);
        dedup_sources(&mut cat);
        proof {
            assert forall|j: int|
                0 <= j < pre_cat.len() implies (#[trigger] crate::catalog::msgs_view(
                cat.messages@,
            )[j]).0 == pre_cat[j].0 && crate::catalog::msgs_view(cat.messages@)[j].1
                == pre_cat[j].1 && crate::catalog::msgs_view(cat.messages@)[j].4
                == pre_cat[j].4 by {
                assert(crate::catalog::msgs_view(cat.messages@)[j] == spec_dedup_source(
                    pre_cat[j],
                ));
            }
            assert(msgs_keys_ext(pre_cat, crate::catalog::msgs_view(cat.messages@)));
        }
        let ghost gdedup = crate::catalog::msgs_view(cat.messages@);
        let ghost entries1 = map.entries@;
        map.entries.insert(mi, (key, cat));
        proof {
            assert forall|i: int|
                0 <= i < map.entries@.len() implies catalog_wf((#[trigger] map.entries@[i]).1)
                && metadata_of_input(map.entries@[i].1.metadata, *input) by {
                if i < mi {
                    assert(map.entries@[i] == entries1[i]);
                    assert(entries1[i] == entries0.remove(mi as int)[i]);
                    assert(entries0.remove(mi as int)[i] == entries0[i]);
                } else if i > mi {
                    assert(map.entries@[i] == entries1[i - 1]);
                    assert(entries1[i - 1] == entries0.remove(mi as int)[i - 1]);
                    assert(entries0.remove(mi as int)[i - 1] == entries0[i]);
                }
            }
            if input.depth == 0 {
                assert forall|i: int|
                    0 <= i < map.entries@.len() implies (#[trigger] map.entries@[i]).0@
                    == "messages.pot"@ by {
                    if i < mi {
                        assert(map.entries@[i] == entries1[i]);
                        assert(entries1[i] == entries0.remove(mi as int)[i]);
                        assert(entries0.remove(mi as int)[i] == entries0[i]);
                        assert(entries0[i].0@ == "messages.pot"@);
                    } else if i == mi {
                        assert(map.entries@[i].0 == key);
                        assert(entries0[i].0@ == "messages.pot"@);
                    } else {
                        assert(map.entries@[i] == entries1[i - 1]);
                        assert(entries1[i - 1] == entries0.remove(mi as int)[i - 1]);
                        assert(entries0.remove(mi as int)[i - 1] == entries0[i]);
                        assert(entries0[i].0@ == "messages.pot"@);
                    }
                }
            }
            if mi == 0 {
                assert(crate::catalog::msgs_view(map.entries@[0].1.messages@) == gdedup);
                lemma_keys_ext_trans(
                    base,
                    pre_cat,
                    crate::catalog::msgs_view(map.entries@[0].1.messages@),
                );
            } else {
                assert(map.entries@[0] == entries1[0]);
                assert(entries1[0] == entries0.remove(mi as int)[0]);
                assert(entries0.remove(mi as int)[0] == entries0[0]);
            }
        }
        mi = mi + 1;
    }
    Ok(map)
}

/// Whether the path names an existing directory.  The answer depends
/// on the file system, so nothing is promised of it.
///
/// Relies on `std::path::Path::is_dir`.
#[verifier::external_body]
fn path_is_dir(path: &str) -> bool {
    std::path::Path::new(path).is_dir()
}

/// Build the output path for a catalog file: the title under the
/// output directory, or under the current directory when none is
/// given.  A given directory that does not exist on disk is
/// rejected; whether it exists is the file system's answer, so when
/// a directory is given nothing promises which way the check goes.
pub fn build_path(output_dir: Option<&str>, pot_title: &str) -> (r: Result<String, ()>)
    ensures
        output_dir is None ==> (r matches Ok(p) && p@ == "./"@ + pot_title@),
        r is Err ==> output_dir is Some,
        output_dir matches Some(dir) ==> (r matches Ok(p) ==> p@ == (if dir@.len() > 0
            && dir@.last() == '/' {
            dir@ + pot_title@
        } else {
            dir@ + seq!['/'] + pot_title@
        })),
{
    match output_dir {
        Some(dir) => {
            if !path_is_dir(dir) {
                return Err(());
            }
            let mut out = dir.to_owned();
            let len: usize = dir.unicode_len();
            if len == 0 || dir.get_char(len - 1) != '/' {
                out.append("/");
                proof {
                    reveal_strlit("/");
                    assert("/"@ =~= seq!['/']);
                }
            }
            out.append(pot_title);
            Ok(out)
        },
        None => {
            let mut out = String::from_str("./");
            proof {
                reveal_strlit("./");
            }
            out.append(pot_title);
            Ok(out)
        },
    }
}

/// The catalog message views after adding the first `n` extracted
/// messages of one document, in order, each with a `path:line`
/// source.
pub open spec fn spec_created(
    entries: Seq<(usize, Seq<char>, Seq<char>)>,
    n: int,
    path: Seq<char>,
) -> Seq<(Seq<char>, Seq<char>, Seq<char>, Seq<char>, bool)>
    decreases n,
{
    if n <= 0 {
        Seq::empty()
    } else {
        crate::catalog::spec_add_message(
            spec_created(entries, n - 1, path),
            entries[n - 1].1,
            path + seq![':'] + crate::paths::dec_digits(entries[n - 1].0 as int),
            entries[n - 1].2,
        )
    }
}

/// Build a catalog from one Markdown document: its extracted
/// messages with `path:line` sources, under a header built from the
/// language, the optional title and the creation time.  For
/// documents without code blocks the catalog's entries are pinned
/// exactly as [`spec_created`] over the extracted messages.
pub fn create_catalog(
    content: &str,
    source_path: &str,
    language: &str,
    title: Option<&str>,
    pot_creation_date: &str,
) -> (r: Result<Catalog, ReconstructError>)
    ensures
        r matches Ok(c) ==> catalog_wf(c),
        r matches Ok(c) ==> {
            &&& c.metadata.language@ == language@
            &&& c.metadata.pot_creation_date@ == pot_creation_date@
            &&& (match title {
                Some(t) => c.metadata.project_id_version@ == t@,
                None => c.metadata.project_id_version@.len() == 0,
            })
        },
        !crate::groups::has_code_block(crate::parse::extraction_of(content@)) ==> ({
            let gs = crate::groups::model_groups(
                crate::parse::extraction_of(content@),
                0,
                0,
                false,
                false,
                Seq::empty(),
            );
            match crate::messages::spec_extracted(gs, 0, Seq::empty()) {
                None => r is Err,
                Some(msgs) => r matches Ok(c) && crate::catalog::msgs_view(c.messages@)
                    == spec_created(msgs, msgs.len() as int, source_path@),
            }
        }),
{
    let mut metadata = CatalogMetadata::new();
    match title {
        Some(t) => {
            metadata.project_id_version = t.to_owned();
        },
        None => {},
    }
    metadata.language = language.to_owned();
    metadata.pot_creation_date = pot_creation_date.to_owned();
    metadata.mime_version = String::from_str("1.0");
    metadata.content_type = String::from_str("text/plain; charset=UTF-8");
    metadata.content_transfer_encoding = String::from_str("8bit");
    let mut catalog = Catalog::new(metadata);
    let ghost meta0 = catalog.metadata;
    let ghost hyp = !crate::groups::has_code_block(crate::parse::extraction_of(content@));
    let ghost gs = crate::groups::model_groups(
        crate::parse::extraction_of(content@),
        0,
        0,
        false,
        false,
        Seq::empty(),
    );
    let extracted = match extract_messages(content) {
        Ok(e) => e,
        Err(e) => {
            return Err(e);
        },
    };
    let ghost msgs = crate::messages::messages_view(extracted@);
    proof {
        if hyp {
            assert(crate::messages::spec_extracted(gs, 0, Seq::empty()) == Some(msgs));
        }
        assert(crate::catalog::msgs_view(catalog.messages@)
            =~= Seq::<(Seq<char>, Seq<char>, Seq<char>, Seq<char>, bool)>::empty());
    }
    let mut i: usize = 0;
    while i < extracted.len()
        invariant
            0 <= i <= extracted@.len(),
            catalog_wf(catalog),
            catalog.metadata == meta0,
            msgs == crate::messages::messages_view(extracted@),
            crate::catalog::msgs_view(catalog.messages@) == spec_created(
                msgs,
                i as int,
                source_path@,
            ),
        decreases extracted@.len() - i,
    {
        let lineno: usize = extracted[i].0;
        let source = build_source(source_path, lineno, 1);
        proof {
            assert(msgs[i as int] == (extracted@[i as int].0, extracted@[i as int].1.message@,
            extracted@[i as int].1.comment@));
            assert(source@ == source_path@ + seq![':'] + crate::paths::dec_digits(
                lineno as int,
            ));
        }
        add_message(
            &mut catalog,
            extracted[i].1.message.as_str(),
            source.as_str(),
            extracted[i].1.comment.as_str(),
        );
        i = i + 1;
    }
    Ok(catalog)
}

} // verus!
