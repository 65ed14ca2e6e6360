//! Extracting translatable messages and splicing translations back.

use vstd::prelude::*;
use vstd::string::StrSliceExecFns;

use crate::catalog::Catalog;
use crate::directives::{is_unicode_whitespace, spec_trim};
use crate::events::{MdEvent, MdEventS, MdTagEnd, MdTagS};
use crate::events::{bare_events, events_view, pos_event_view};
use crate::groups::{Group, GroupS, clone_range, group_events, groups_view, group_events_of,
    flatten_groups, has_code_block, model_groups};
use crate::render::{ReconstructError, RenderState, reconstruct_markdown, render_ok,
    rendered_after, spec_token_count, trim_leading_newlines};
use crate::parse::{extract_events, extraction_of};

verus! {

/// One extracted message: the Markdown text a translator sees, and
/// the translator comment attached to it.
#[derive(Debug, PartialEq)]
pub struct ExtractedMessage {
    pub message: String,
    pub comment: String,
}

/// Whether the string holds a character that is not whitespace.
pub open spec fn has_visible_char(s: Seq<char>) -> bool {
    exists|i: int| 0 <= i < s.len() && !is_unicode_whitespace(#[trigger] s[i])
}

pub fn has_visible(s: &str) -> (r: bool)
    ensures
        r == has_visible_char(s@),
{
    let len: usize = s.unicode_len();
    let mut i: usize = 0;
    while i < len
        invariant
            0 <= i <= len,
            len == s@.len(),
            forall|j: int| 0 <= j < i ==> is_unicode_whitespace(#[trigger] s@[j]),
        decreases len - i,
    {
        if !s.get_char(i).is_whitespace() {
            return true;
        }
        i = i + 1;
    }
    false
}

/// The model of the extracted messages: line number, message text,
/// translator comment.
pub open spec fn messages_view(s: Seq<(usize, ExtractedMessage)>) -> Seq<
    (usize, Seq<char>, Seq<char>),
> {
    s.map_values(|p: (usize, ExtractedMessage)| (p.0, p.1.message@, p.1.comment@))
}

/// The messages that extraction collects from the groups from
/// position `i` on, with `prefix` already rendered: each non-empty
/// translatable group renders to its text, which is kept when it has
/// a visible character; skipped groups only advance the rendering;
/// `None` when the serializer rejects a group.
pub open spec fn spec_extracted(gs: Seq<GroupS>, i: int, prefix: Seq<MdEventS>) -> Option<
    Seq<(usize, Seq<char>, Seq<char>)>,
>
    decreases gs.len() - i,
{
    if i < 0 || i >= gs.len() {
        Some(Seq::empty())
    } else {
        match gs[i] {
            GroupS::Translate { events, comment } => {
                if events.len() == 0 {
                    spec_extracted(gs, i + 1, prefix)
                } else {
                    let evs = bare_events(events);
                    if !render_ok(prefix, evs, spec_token_count(evs)) {
                        None
                    } else {
                        let text = trim_leading_newlines(
                            rendered_after(prefix, evs, spec_token_count(evs)),
                        );
                        match spec_extracted(gs, i + 1, prefix + evs) {
                            None => None,
                            Some(tail) => {
                                if has_visible_char(text) {
                                    Some(seq![(events[0].0, text, comment)] + tail)
                                } else {
                                    Some(tail)
                                }
                            },
                        }
                    }
                }
            },
            GroupS::Skip(events) => {
                let evs = bare_events(events);
                if !render_ok(prefix, evs, spec_token_count(evs)) {
                    None
                } else {
                    spec_extracted(gs, i + 1, prefix + evs)
                }
            },
        }
    }
}

/// Extract translatable strings from `document`.
///
/// Each translatable group of the document becomes one message,
/// labeled with the line number of the group's first event and
/// carrying the translator comment attached to the group.  Messages
/// that hold only whitespace are dropped; every returned message has
/// a visible character.  For documents without code blocks the
/// result is exactly [`spec_extracted`] over the grouping model of
/// the document's events, and an error is returned exactly when the
/// serializer rejects a group.
pub fn extract_messages(document: &str) -> (r: Result<
    Vec<(usize, ExtractedMessage)>,
    ReconstructError,
>)
    ensures
        r matches Ok(msgs) ==> forall|i: int|
            0 <= i < msgs@.len() ==> has_visible_char(#[trigger] msgs@[i].1.message@),
        !has_code_block(extraction_of(document@)) ==> ({
            let gs = model_groups(extraction_of(document@), 0, 0, false, false, Seq::empty());
            match spec_extracted(gs, 0, Seq::empty()) {
                Some(msgs) => r matches Ok(out) && messages_view(out@) == msgs,
                None => r is Err,
            }
        }),
{
    let events = extract_events(document, None);
    let groups = group_events(&events);
    let ghost hyp = !has_code_block(extraction_of(document@));
    let ghost gs = groups_view(groups@);
    let ghost whole = spec_extracted(gs, 0, Seq::empty());
    let mut messages: Vec<(usize, ExtractedMessage)> = Vec::new();
    let mut state: Option<RenderState> = None;
    let ghost mut prefix: Seq<MdEventS> = Seq::empty();
    let mut gi: usize = 0;
    proof {
        if hyp {
            assert(events_view(events@) == extraction_of(document@));
            assert(gs == model_groups(extraction_of(document@), 0, 0, false, false, Seq::empty()));
        }
        assert(messages_view(messages@) =~= Seq::<(usize, Seq<char>, Seq<char>)>::empty());
    }
    while gi < groups.len()
        invariant
            0 <= gi <= groups@.len(),
            gs == groups_view(groups@),
            hyp == !has_code_block(extraction_of(document@)),
            hyp ==> gs == model_groups(
                extraction_of(document@),
                0,
                0,
                false,
                false,
                Seq::empty(),
            ),
            whole == spec_extracted(gs, 0, Seq::empty()),
            match state {
                Some(st) => crate::render::state_events(st) == prefix,
                None => prefix == Seq::<MdEventS>::empty(),
            },
            forall|i: int|
                0 <= i < messages@.len() ==> has_visible_char(
                    #[trigger] messages@[i].1.message@,
                ),
            whole == (match spec_extracted(gs, gi as int, prefix) {
                None => None::<Seq<(usize, Seq<char>, Seq<char>)>>,
                Some(tail) => Some(messages_view(messages@) + tail),
            }),
        decreases groups@.len() - gi,
    {
        let ghost gi0 = gi as int;
        let ghost prefix0 = prefix;
        let ghost msgs0 = messages@;
        proof {
            assert(gs[gi0] == groups@[gi0]@);
        }
        match &groups[gi] {
            Group::Translate { events: gevs, comment } => {
                if gevs.len() > 0 {
                    let ghost evs = bare_events(events_view(gevs@));
                    let lineno: usize = gevs[0].0;
                    let (text, new_state) = match reconstruct_markdown(
                        gevs,
                        state_ref(&state),
                    ) {
                        Ok(p) => p,
                        Err(e) => {
                            proof {
                                assert(!render_ok(prefix0, evs, spec_token_count(evs)));
                                assert(spec_extracted(gs, gi0, prefix0) is None);
                            }
                            return Err(e);
                        },
                    };
                    proof {
                        assert(render_ok(prefix0, evs, spec_token_count(evs)));
                        assert(text@ == trim_leading_newlines(
                            rendered_after(prefix0, evs, spec_token_count(evs)),
                        ));
                        assert(lineno == group_events_of(gs[gi0])[0].0);
                    }
                    if has_visible(text.as_str()) {
                        let ghost gtext = text@;
                        messages.push(
                            (lineno, ExtractedMessage { message: text, comment: comment.clone() }),
                        );
                        proof {
                            assert(messages@ == msgs0.push(
                                (lineno, messages@.last().1),
                            ));
                            assert(messages@.last().1.message@ == gtext);
                            assert forall|i: int|
                                0 <= i < messages@.len() implies has_visible_char(
                                #[trigger] messages@[i].1.message@,
                            ) by {
                                if i < msgs0.len() {
                                    assert(messages@[i] == msgs0[i]);
                                }
                            }
                            assert(messages_view(messages@) =~= messages_view(msgs0) + seq![
                                (lineno, gtext, messages@.last().1.comment@),
                            ]);
                        }
                    }
                    state = Some(new_state);
                    proof {
                        prefix = prefix0 + evs;
                        lemma_collect_step(gs, gi0, prefix0, msgs0, messages@, whole);
                    }
                } else {
                    proof {
                        assert(spec_extracted(gs, gi0, prefix0) == spec_extracted(
                            gs,
                            gi0 + 1,
                            prefix0,
                        ));
                    }
                }
            },
            Group::Skip(gevs) => {
                let ghost evs = bare_events(events_view(gevs@));
                let (_, new_state) = match reconstruct_markdown(gevs, state_ref(&state)) {
                    Ok(p) => p,
                    Err(e) => {
                        proof {
                            assert(!render_ok(prefix0, evs, spec_token_count(evs)));
                            assert(spec_extracted(gs, gi0, prefix0) is None);
                        }
                        return Err(e);
                    },
                };
                state = Some(new_state);
                proof {
                    prefix = prefix0 + evs;
                    assert(spec_extracted(gs, gi0, prefix0) == spec_extracted(
                        gs,
                        gi0 + 1,
                        prefix,
                    ));
                }
            },
        }
        gi = gi + 1;
    }
    proof {
        assert(spec_extracted(gs, gi as int, prefix) == Some(
            Seq::<(usize, Seq<char>, Seq<char>)>::empty(),
        ));
        assert(messages_view(messages@) + Seq::<(usize, Seq<char>, Seq<char>)>::empty()
            =~= messages_view(messages@));
    }
    Ok(messages)
}

/// One bookkeeping step of the collection invariant for a rendered
/// translatable group.
proof fn lemma_collect_step(
    gs: Seq<GroupS>,
    i: int,
    prefix: Seq<MdEventS>,
    msgs0: Seq<(usize, ExtractedMessage)>,
    msgs1: Seq<(usize, ExtractedMessage)>,
    whole: Option<Seq<(usize, Seq<char>, Seq<char>)>>,
)
    requires
        0 <= i < gs.len(),
        gs[i] matches GroupS::Translate { events, comment } && events.len() > 0 && ({
            let evs = bare_events(events);
            &&& render_ok(prefix, evs, spec_token_count(evs))
            &&& ({
                let text = trim_leading_newlines(
                    rendered_after(prefix, evs, spec_token_count(evs)),
                );
                if has_visible_char(text) {
                    messages_view(msgs1) == messages_view(msgs0) + seq![
                        (events[0].0, text, comment),
                    ]
                } else {
                    msgs1 == msgs0
                }
            })
        }),
        whole == (match spec_extracted(gs, i, prefix) {
            None => None::<Seq<(usize, Seq<char>, Seq<char>)>>,
            Some(tail) => Some(messages_view(msgs0) + tail),
        }),
    ensures
        whole == (match spec_extracted(
            gs,
            i + 1,
            prefix + bare_events(gs[i]->Translate_events),
        ) {
            None => None::<Seq<(usize, Seq<char>, Seq<char>)>>,
            Some(tail) => Some(messages_view(msgs1) + tail)
        }),
{
    let events = gs[i]->Translate_events;
    let comment = gs[i]->Translate_comment;
    let evs = bare_events(events);
    let text = trim_leading_newlines(rendered_after(prefix, evs, spec_token_count(evs)));
    match spec_extracted(gs, i + 1, prefix + evs) {
        None => {
            assert(spec_extracted(gs, i, prefix) is None);
        },
        Some(tail) => {
            if has_visible_char(text) {
                assert(spec_extracted(gs, i, prefix) == Some(
                    seq![(events[0].0, text, comment)] + tail,
                ));
                assert(messages_view(msgs0) + (seq![(events[0].0, text, comment)] + tail)
                    =~= (messages_view(msgs0) + seq![(events[0].0, text, comment)]) + tail);
            } else {
                assert(spec_extracted(gs, i, prefix) == Some(tail));
            }
        },
    }
}

fn state_ref(state: &Option<RenderState>) -> (r: Option<&RenderState>)
    ensures
        match r {
            Some(s) => *state matches Some(inner) && *s == inner,
            None => *state is None,
        },
{
    match state {
        Some(s) => Some(s),
        None => None,
    }
}

/// Whether the events are wrapped in one outer paragraph.
pub open spec fn is_paragraph_wrapped(evs: Seq<(usize, MdEventS)>) -> bool {
    &&& evs.len() >= 2
    &&& evs[0].1 == MdEventS::Start(MdTagS::Paragraph)
    &&& evs.last().1 == MdEventS::End(MdTagEnd::Paragraph)
}

/// The events with an unwanted outer paragraph removed: if
/// `new_events` is wrapped in a paragraph and `old_events` is not,
/// the wrapper is dropped.
pub open spec fn spec_trim_paragraph(
    new_events: Seq<(usize, MdEventS)>,
    old_events: Seq<(usize, MdEventS)>,
) -> Seq<(usize, MdEventS)> {
    if is_paragraph_wrapped(new_events) && !is_paragraph_wrapped(old_events) {
        new_events.subrange(1, new_events.len() - 1)
    } else {
        new_events
    }
}

fn exec_is_wrapped(events: &Vec<(usize, MdEvent)>) -> (r: bool)
    ensures
        r == is_paragraph_wrapped(events_view(events@)),
{
    let n = events.len();
    if n < 2 {
        return false;
    }
    let first_ok = match &events[0].1 {
        MdEvent::Start(crate::events::MdTag::Paragraph) => true,
        _ => false,
    };
    let last_ok = match &events[n - 1].1 {
        MdEvent::End(MdTagEnd::Paragraph) => true,
        _ => false,
    };
    proof {
        assert(events_view(events@)[0] == pos_event_view(events@[0]));
        assert(events_view(events@).last() == pos_event_view(events@[n - 1]));
    }
    first_ok && last_ok
}

/// Trim `new_events` if they are wrapped in an unwanted paragraph.
///
/// If `new_events` is wrapped in a paragraph and `old_events` is
/// not, the outer paragraph is removed.  This is used when a
/// stand-alone text was re-parsed and came back wrapped.
pub fn trim_paragraph(
    new_events: &Vec<(usize, MdEvent)>,
    old_events: &Vec<(usize, MdEvent)>,
) -> (r: Vec<(usize, MdEvent)>)
    ensures
        events_view(r@) == spec_trim_paragraph(events_view(new_events@), events_view(old_events@)),
{
    if exec_is_wrapped(new_events) && !exec_is_wrapped(old_events) {
        clone_range(new_events, 1, new_events.len() - 1)
    } else {
        let r = clone_range(new_events, 0, new_events.len());
        proof {
            assert(events_view(new_events@).subrange(0, events_view(new_events@).len() as int)
                =~= events_view(new_events@));
        }
        r
    }
}

/// Whether an event opens a code block.
pub open spec fn is_code_block_start(e: MdEventS) -> bool {
    e matches MdEventS::Start(MdTagS::CodeBlock(_))
}

/// A sequence that holds no code block start never ends inside a
/// code block.
proof fn lemma_not_in_code_block(prefix: Seq<MdEventS>)
    requires
        forall|j: int| 0 <= j < prefix.len() ==> !is_code_block_start(#[trigger] prefix[j]),
    ensures
        !crate::render::in_code_block_after(prefix),
    decreases prefix.len(),
{
    if prefix.len() > 0 {
        assert(!is_code_block_start(prefix.last()));
        match prefix.last() {
            MdEventS::End(crate::events::MdTagEnd::CodeBlock) => {},
            _ => {
                lemma_not_in_code_block(prefix.drop_last());
            },
        }
    }
}

/// In a stream without code blocks, no group's run opens one.
proof fn lemma_group_no_code_block(gs: Seq<GroupS>, doc: Seq<(usize, MdEventS)>, j: int)
    requires
        flatten_groups(gs) == doc,
        !has_code_block(doc),
        0 <= j < gs.len(),
    ensures
        forall|k: int|
            0 <= k < bare_events(group_events_of(gs[j])).len() ==> !is_code_block_start(
                #[trigger] bare_events(group_events_of(gs[j]))[k],
            ),
{
    assert forall|k: int|
        0 <= k < bare_events(group_events_of(gs[j])).len() implies !is_code_block_start(
        #[trigger] bare_events(group_events_of(gs[j]))[k],
    ) by {
        crate::groups::lemma_flatten_member(gs, j, k);
        let m = choose|m: int|
            0 <= m < flatten_groups(gs).len() && flatten_groups(gs)[m] == group_events_of(
                gs[j],
            )[k];
        assert(doc[m] == group_events_of(gs[j])[k]);
        assert(bare_events(group_events_of(gs[j]))[k] == group_events_of(gs[j])[k].1);
        if is_code_block_start(doc[m].1) {
            assert(has_code_block(doc));
        }
    }
}

/// The events a translated document holds, spliced group by group
/// from position `i` on, with `prefix` already rendered: each
/// translatable group whose rendered text has a translated, not
/// fuzzy catalog entry is replaced by the events of that entry's
/// msgstr, an unwanted outer paragraph trimmed; every other group
/// passes through; `None` when the serializer rejects a group.
pub open spec fn spec_spliced(
    gs: Seq<GroupS>,
    i: int,
    prefix: Seq<MdEventS>,
    msgs: Seq<crate::catalog::Message>,
) -> Option<Seq<(usize, MdEventS)>>
    decreases gs.len() - i,
{
    if i < 0 || i >= gs.len() {
        Some(Seq::empty())
    } else {
        match gs[i] {
            GroupS::Translate { events, comment } => {
                let evs = bare_events(events);
                if !render_ok(prefix, evs, spec_token_count(evs)) {
                    None
                } else {
                    let msgid = trim_leading_newlines(
                        rendered_after(prefix, evs, spec_token_count(evs)),
                    );
                    let k = crate::catalog::find_index(msgs, msgid);
                    let piece = if k < msgs.len() && msgs[k].msgstr@.len() > 0
                        && !crate::catalog::spec_is_fuzzy(
                        crate::catalog::flags_view(msgs[k].flags),
                    ) {
                        spec_trim_paragraph(extraction_of(msgs[k].msgstr@), events)
                    } else {
                        events
                    };
                    match spec_spliced(gs, i + 1, prefix + evs, msgs) {
                        None => None,
                        Some(rest) => Some(piece + rest),
                    }
                }
            },
            GroupS::Skip(events) => {
                let evs = bare_events(events);
                if !render_ok(prefix, evs, spec_token_count(evs)) {
                    None
                } else {
                    match spec_spliced(gs, i + 1, prefix + evs, msgs) {
                        None => None,
                        Some(rest) => Some(events + rest),
                    }
                }
            },
        }
    }
}

/// Translate the events of a document using `catalog`.
///
/// Each translatable group is rendered to its `msgid`; when the
/// catalog holds a translation for it that is not fuzzy, the events
/// of the translation replace the group's events, otherwise the
/// group passes through unchanged.  For inputs without code blocks
/// the result is exactly [`spec_spliced`] over the grouping model;
/// in particular, with an empty catalog the events pass through
/// exactly.
pub fn translate_events(events: &Vec<(usize, MdEvent)>, catalog: &Catalog) -> (r: Result<
    Vec<(usize, MdEvent)>,
    ReconstructError,
>)
    ensures
        catalog.messages@.len() == 0 && !has_code_block(events_view(events@)) ==> (r matches Ok(
            out,
        ) ==> events_view(out@) == events_view(events@)),
        !has_code_block(events_view(events@)) ==> ({
            let gs = model_groups(events_view(events@), 0, 0, false, false, Seq::empty());
            match spec_spliced(gs, 0, Seq::empty(), catalog.messages@) {
                Some(out) => r matches Ok(o) && events_view(o@) == out,
                None => r is Err,
            }
        }),
{
    let ghost evs_doc = events_view(events@);
    let ghost hyp = !has_code_block(evs_doc);
    let groups = group_events(events);
    let ghost gs = groups_view(groups@);
    let ghost whole = spec_spliced(gs, 0, Seq::empty(), catalog.messages@);
    let mut out: Vec<(usize, MdEvent)> = Vec::new();
    let mut state: Option<RenderState> = None;
    let ghost mut prefix: Seq<MdEventS> = Seq::empty();
    let mut gi: usize = 0;
    proof {
        assert(events_view(out@) =~= Seq::<(usize, MdEventS)>::empty());
        assert(crate::groups::flatten_groups(gs.take(0)) =~= Seq::<(usize, MdEventS)>::empty());
    }
    while gi < groups.len()
        invariant
            0 <= gi <= groups@.len(),
            gs == groups_view(groups@),
            hyp == !has_code_block(evs_doc),
            evs_doc == events_view(events@),
            hyp ==> gs == model_groups(evs_doc, 0, 0, false, false, Seq::empty()),
            hyp ==> flatten_groups(gs) == evs_doc,
            whole == spec_spliced(gs, 0, Seq::empty(), catalog.messages@),
            match state {
                Some(st) => crate::render::state_events(st) == prefix,
                None => prefix == Seq::<MdEventS>::empty(),
            },
            hyp ==> forall|j: int|
                0 <= j < prefix.len() ==> !is_code_block_start(#[trigger] prefix[j]),
            hyp ==> whole == (match spec_spliced(gs, gi as int, prefix, catalog.messages@) {
                None => None::<Seq<(usize, MdEventS)>>,
                Some(tail) => Some(events_view(out@) + tail),
            }),
            catalog.messages@.len() == 0 && hyp ==> events_view(out@) == flatten_groups(
                gs.take(gi as int),
            ),
        decreases groups@.len() - gi,
    {
        let ghost gi0 = gi as int;
        let ghost prefix0 = prefix;
        let ghost out0 = events_view(out@);
        proof {
            assert(gs[gi0] == groups@[gi0]@);
            assert(gs.take(gi0 + 1) =~= gs.take(gi0).push(gs[gi0]));
            crate::groups::lemma_flatten_groups_push(gs.take(gi0), gs[gi0]);
        }
        match &groups[gi] {
            Group::Translate { events: gevs, comment: _ } => {
                let ghost evs = bare_events(events_view(gevs@));
                let (msgid, new_state) = match reconstruct_markdown(gevs, state_ref(&state)) {
                    Ok(p) => p,
                    Err(e) => {
                        proof {
                            if hyp {
                                assert(!render_ok(prefix0, evs, spec_token_count(evs)));
                                assert(spec_spliced(gs, gi0, prefix0, catalog.messages@) is None);
                            }
                        }
                        return Err(e);
                    },
                };
                proof {
                    assert(render_ok(prefix0, evs, spec_token_count(evs)));
                    assert(msgid@ == trim_leading_newlines(
                        rendered_after(prefix0, evs, spec_token_count(evs)),
                    ));
                }
                let translated: Option<&crate::catalog::Message> = match catalog.find_message(
                    msgid.as_str(),
                ) {
                    Some(msg) => {
                        if !msg.is_fuzzy() && msg.is_translated() {
                            Some(msg)
                        } else {
                            None
                        }
                    },
                    None => None,
                };
                let ghost k = crate::catalog::find_index(catalog.messages@, msgid@);
                match translated {
                    Some(msg) => {
                        proof {
                            if hyp {
                                lemma_group_no_code_block(gs, evs_doc, gi0);
                                lemma_not_in_code_block(prefix0);
                            }
                        }
                        let new_events = extract_events(msg.msgstr.as_str(), state_ref(&state));
                        let mut spliced = trim_paragraph(&new_events, gevs);
                        proof {
                            if hyp {
                                assert(events_view(new_events@) == extraction_of(msg.msgstr@));
                                assert(events_view(spliced@) == spec_trim_paragraph(
                                    extraction_of(msg.msgstr@),
                                    group_events_of(gs[gi0]),
                                ));
                            }
                        }
                        let ghost sv = events_view(spliced@);
                        out.append(&mut spliced);
                        proof {
                            assert(events_view(out@) =~= out0 + sv);
                            if hyp {
                                crate::catalog::lemma_find_index(catalog.messages@, msgid@);
                                assert(k < catalog.messages@.len());
                                assert(catalog.messages@[k] == *msg);
                                assert(catalog.messages@[k].msgstr@.len() > 0);
                                assert(!crate::catalog::spec_is_fuzzy(
                                    crate::catalog::flags_view(catalog.messages@[k].flags),
                                ));
                                assert(sv == spec_trim_paragraph(
                                    extraction_of(catalog.messages@[k].msgstr@),
                                    group_events_of(gs[gi0]),
                                ));
                                lemma_splice_step(gs, gi0, prefix0, catalog.messages@, out0,
                                    events_view(out@), whole);
                            }
                        }
                    },
                    None => {
                        let mut passthrough = crate::groups::clone_range(gevs, 0, gevs.len());
                        proof {
                            assert(events_view(passthrough@) =~= events_view(gevs@));
                        }
                        out.append(&mut passthrough);
                        proof {
                            assert(events_view(out@) =~= out0 + group_events_of(gs[gi0]));
                            if hyp {
                                crate::catalog::lemma_find_index(catalog.messages@, msgid@);
                                lemma_splice_step(gs, gi0, prefix0, catalog.messages@, out0,
                                    events_view(out@), whole);
                            }
                        }
                    },
                }
                state = Some(new_state);
                proof {
                    prefix = prefix0 + evs;
                    if hyp {
                        lemma_group_no_code_block(gs, evs_doc, gi0);
                        assert forall|j: int|
                            0 <= j < prefix.len() implies !is_code_block_start(
                            #[trigger] prefix[j],
                        ) by {
                            if j >= prefix0.len() {
                                assert(prefix[j] == evs[j - prefix0.len()]);
                            }
                        }
                    }
                }
            },
            Group::Skip(gevs) => {
                let ghost evs = bare_events(events_view(gevs@));
                let (_, new_state) = match reconstruct_markdown(gevs, state_ref(&state)) {
                    Ok(p) => p,
                    Err(e) => {
                        proof {
                            if hyp {
                                assert(!render_ok(prefix0, evs, spec_token_count(evs)));
                                assert(spec_spliced(gs, gi0, prefix0, catalog.messages@) is None);
                            }
                        }
                        return Err(e);
                    },
                };
                let mut passthrough = crate::groups::clone_range(gevs, 0, gevs.len());
                proof {
                    assert(events_view(passthrough@) =~= events_view(gevs@));
                }
                out.append(&mut passthrough);
                state = Some(new_state);
                proof {
                    prefix = prefix0 + evs;
                    assert(events_view(out@) =~= out0 + group_events_of(gs[gi0]));
                    if hyp {
                        assert(spec_spliced(gs, gi0, prefix0, catalog.messages@) == (
                        match spec_spliced(gs, gi0 + 1, prefix, catalog.messages@) {
                            None => None::<Seq<(usize, MdEventS)>>,
                            Some(rest) => Some(group_events_of(gs[gi0]) + rest),
                        }));
                        match spec_spliced(gs, gi0 + 1, prefix, catalog.messages@) {
                            None => {},
                            Some(rest) => {
                                assert(out0 + (group_events_of(gs[gi0]) + rest) =~= events_view(
                                    out@,
                                ) + rest);
                            },
                        }
                    }
                    if hyp {
                        lemma_group_no_code_block(gs, evs_doc, gi0);
                        assert forall|j: int|
                            0 <= j < prefix.len() implies !is_code_block_start(
                            #[trigger] prefix[j],
                        ) by {
                            if j >= prefix0.len() {
                                assert(prefix[j] == evs[j - prefix0.len()]);
                            }
                        }
                    }
                }
            },
        }
        gi = gi + 1;
    }
    proof {
        assert(spec_spliced(gs, gi as int, prefix, catalog.messages@) == Some(
            Seq::<(usize, MdEventS)>::empty(),
        ));
        assert(events_view(out@) + Seq::<(usize, MdEventS)>::empty() =~= events_view(out@));
        assert(gs.take(gi as int) =~= gs);
    }
    Ok(out)
}

/// One bookkeeping step of the splice invariant for a translatable
/// group.
proof fn lemma_splice_step(
    gs: Seq<GroupS>,
    i: int,
    prefix: Seq<MdEventS>,
    msgs: Seq<crate::catalog::Message>,
    out0: Seq<(usize, MdEventS)>,
    out1: Seq<(usize, MdEventS)>,
    whole: Option<Seq<(usize, MdEventS)>>,
)
    requires
        0 <= i < gs.len(),
        gs[i] matches GroupS::Translate { events, comment },
        render_ok(
            prefix,
            bare_events(group_events_of(gs[i])),
            spec_token_count(bare_events(group_events_of(gs[i]))),
        ),
        ({
            let evs = bare_events(group_events_of(gs[i]));
            let msgid = trim_leading_newlines(rendered_after(prefix, evs, spec_token_count(evs)));
            let k = crate::catalog::find_index(msgs, msgid);
            let piece = if k < msgs.len() && msgs[k].msgstr@.len() > 0
                && !crate::catalog::spec_is_fuzzy(crate::catalog::flags_view(msgs[k].flags)) {
                spec_trim_paragraph(extraction_of(msgs[k].msgstr@), group_events_of(gs[i]))
            } else {
                group_events_of(gs[i])
            };
            out1 == out0 + piece
        }),
        whole == (match spec_spliced(gs, i, prefix, msgs) {
            None => None::<Seq<(usize, MdEventS)>>,
            Some(tail) => Some(out0 + tail),
        }),
    ensures
        whole == (match spec_spliced(
            gs,
            i + 1,
            prefix + bare_events(group_events_of(gs[i])),
            msgs,
        ) {
            None => None::<Seq<(usize, MdEventS)>>,
            Some(tail) => Some(out1 + tail),
        }),
{
    let evs = bare_events(group_events_of(gs[i]));
    let msgid = trim_leading_newlines(rendered_after(prefix, evs, spec_token_count(evs)));
    let k = crate::catalog::find_index(msgs, msgid);
    let piece = if k < msgs.len() && msgs[k].msgstr@.len() > 0 && !crate::catalog::spec_is_fuzzy(
        crate::catalog::flags_view(msgs[k].flags),
    ) {
        spec_trim_paragraph(extraction_of(msgs[k].msgstr@), group_events_of(gs[i]))
    } else {
        group_events_of(gs[i])
    };
    match spec_spliced(gs, i + 1, prefix + evs, msgs) {
        None => {
            assert(spec_spliced(gs, i, prefix, msgs) is None);
        },
        Some(rest) => {
            assert(spec_spliced(gs, i, prefix, msgs) == Some(piece + rest));
            assert(out0 + (piece + rest) =~= (out0 + piece) + rest);
        },
    }
}

} // verus!
