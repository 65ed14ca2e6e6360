//! Grouping of events into translatable and skipped runs.
//!
//! The event stream of a document is partitioned into groups:
//! `Translate` groups hold text that a translator should see,
//! `Skip` groups hold the structural events around it.
//! Concatenating the events of all groups, in order, yields the
//! original stream, except inside fenced code blocks, where a text
//! event may be split into adjacent text events that together carry
//! the same characters.

use vstd::prelude::*;
use vstd::seq_lib::lemma_flatten_concat;
use vstd::string::StrSliceExecFns;
use vstd::string::StringExecFns;

use crate::directives;
use crate::events::{MdEvent, MdEventS, MdTag, MdTagEnd, MdTagS};
use crate::events::{bare_events, events_view, pos_event_view};

verus! {

/// Markdown events grouped by type.
#[derive(Debug, PartialEq)]
pub enum Group {
    /// Markdown events which should be translated, with a translator
    /// comment that may be attached to them.
    Translate { events: Vec<(usize, MdEvent)>, comment: String },
    /// Markdown events which should be skipped when translating.
    Skip(Vec<(usize, MdEvent)>),
}

/// Mathematical model of a [`Group`].
pub enum GroupS {
    Translate { events: Seq<(usize, MdEventS)>, comment: Seq<char> },
    Skip(Seq<(usize, MdEventS)>),
}

impl View for Group {
    type V = GroupS;

    open spec fn view(&self) -> GroupS {
        match self {
            Group::Translate { events, comment } => GroupS::Translate {
                events: events_view(events@),
                comment: comment@,
            },
            Group::Skip(events) => GroupS::Skip(events_view(events@)),
        }
    }
}

/// The model of a sequence of groups.
pub open spec fn groups_view(s: Seq<Group>) -> Seq<GroupS> {
    s.map_values(|g: Group| g@)
}

/// The events of a group.
pub open spec fn group_events_of(g: GroupS) -> Seq<(usize, MdEventS)> {
    match g {
        GroupS::Translate { events, comment } => events,
        GroupS::Skip(events) => events,
    }
}

/// The concatenation of the events of all groups, in order.
pub open spec fn flatten_groups(gs: Seq<GroupS>) -> Seq<(usize, MdEventS)>
    decreases gs.len(),
{
    if gs.len() == 0 {
        Seq::empty()
    } else {
        flatten_groups(gs.drop_last()) + group_events_of(gs.last())
    }
}

/// The characters carried by the text events of a sequence, in
/// order.
pub open spec fn texts_concat(evs: Seq<MdEventS>) -> Seq<char>
    decreases evs.len(),
{
    if evs.len() == 0 {
        Seq::empty()
    } else {
        texts_concat(evs.drop_last()) + (match evs.last() {
            MdEventS::Text(t) => t,
            _ => Seq::empty(),
        })
    }
}

/// Whether `part` is a valid expansion of the single event `ev`: a
/// text event may become a run of text events carrying the same
/// characters, any other event stays itself.
pub open spec fn expands_event(part: Seq<MdEventS>, ev: MdEventS) -> bool {
    match ev {
        MdEventS::Text(t) => (forall|j: int| 0 <= j < part.len() ==> part[j] is Text)
            && texts_concat(part) == t,
        _ => part == seq![ev],
    }
}

/// Whether `out` arises from `orig` by expanding each event.
pub open spec fn splits_of(orig: Seq<MdEventS>, out: Seq<MdEventS>) -> bool {
    exists|parts: Seq<Seq<MdEventS>>|
        {
            &&& parts.len() == orig.len()
            &&& out == parts.flatten()
            &&& forall|i: int| 0 <= i < orig.len() ==> expands_event(#[trigger] parts[i], orig[i])
        }
}

/// Every sequence is an expansion of itself.
pub proof fn lemma_splits_refl(evs: Seq<MdEventS>)
    ensures
        splits_of(evs, evs),
    decreases evs.len(),
{
    let parts = Seq::new(evs.len(), |i: int| seq![evs[i]]);
    lemma_flatten_of_singletons(parts, evs);
    assert forall|i: int| 0 <= i < evs.len() implies expands_event(#[trigger] parts[i], evs[i]) by {
        if evs[i] is Text {
            let p = parts[i];
            assert(texts_concat(p.drop_last()) == Seq::<char>::empty());
            assert(texts_concat(p) =~= evs[i]->Text_0);
        }
    }
    assert(evs == parts.flatten());
}

proof fn lemma_flatten_of_singletons(parts: Seq<Seq<MdEventS>>, evs: Seq<MdEventS>)
    requires
        parts.len() == evs.len(),
        forall|i: int| 0 <= i < parts.len() ==> #[trigger] parts[i] == seq![evs[i]],
    ensures
        parts.flatten() =~= evs,
    decreases parts.len(),
{
    if parts.len() > 0 {
        lemma_flatten_of_singletons(parts.drop_first(), evs.drop_first());
        assert(parts.flatten() == parts.first() + parts.drop_first().flatten());
        assert(parts.flatten() =~= seq![evs[0]] + evs.drop_first());
    }
}

/// Expansion is preserved by concatenation.
pub proof fn lemma_splits_concat(
    a1: Seq<MdEventS>,
    b1: Seq<MdEventS>,
    a2: Seq<MdEventS>,
    b2: Seq<MdEventS>,
)
    requires
        splits_of(a1, b1),
        splits_of(a2, b2),
    ensures
        splits_of(a1 + a2, b1 + b2),
{
    let parts1 = choose|parts: Seq<Seq<MdEventS>>|
        {
            &&& parts.len() == a1.len()
            &&& b1 == parts.flatten()
            &&& forall|i: int| 0 <= i < a1.len() ==> expands_event(#[trigger] parts[i], a1[i])
        };
    let parts2 = choose|parts: Seq<Seq<MdEventS>>|
        {
            &&& parts.len() == a2.len()
            &&& b2 == parts.flatten()
            &&& forall|i: int| 0 <= i < a2.len() ==> expands_event(#[trigger] parts[i], a2[i])
        };
    let parts = parts1 + parts2;
    lemma_flatten_concat(parts1, parts2);
    assert(parts.flatten() == b1 + b2);
    assert forall|i: int| 0 <= i < (a1 + a2).len() implies expands_event(
        #[trigger] parts[i],
        (a1 + a2)[i],
    ) by {
        if i < a1.len() {
            assert(parts[i] == parts1[i]);
        } else {
            assert(parts[i] == parts2[i - a1.len()]);
            assert((a1 + a2)[i] == a2[i - a1.len()]);
        }
    }
}

/// Whether any event of the sequence opens a code block.
pub open spec fn has_code_block(evs: Seq<(usize, MdEventS)>) -> bool {
    exists|i: int|
        0 <= i < evs.len() && (#[trigger] evs[i].1) matches MdEventS::Start(
            MdTagS::CodeBlock(_),
        )
}

/// The comments joined with single spaces, as `join` does.
pub open spec fn spec_join_spaces(v: Seq<Seq<char>>) -> Seq<char>
    decreases v.len(),
{
    if v.len() == 0 {
        Seq::empty()
    } else if v.len() == 1 {
        v[0]
    } else {
        spec_join_spaces(v.drop_last()) + seq![' '] + v.last()
    }
}

/// Grouping state carried while scanning the events: whether the
/// next translatable group must be skipped, and the translator
/// comments waiting to be attached to it.
#[derive(Debug)]
pub struct GroupingContext {
    pub skip_next_group: bool,
    pub comments: Vec<String>,
}

impl GroupingContext {
    /// The same context with the pending skip consumed.
    pub fn clear_skip_next_group(self) -> (r: Self)
        ensures
            !r.skip_next_group,
            r.comments@ == self.comments@,
    {
        Self { skip_next_group: false, comments: self.comments }
    }
}

/// The comment strings of a context.
pub open spec fn comments_view(v: Seq<String>) -> Seq<Seq<char>> {
    v.map_values(|s: String| s@)
}

fn join_comments(v: &Vec<String>) -> (r: String)
    ensures
        r@ == spec_join_spaces(comments_view(v@)),
{
    let mut r = String::new();
    let mut i: usize = 0;
    while i < v.len()
        invariant
            0 <= i <= v@.len(),
            r@ == spec_join_spaces(comments_view(v@).take(i as int)),
        decreases v@.len() - i,
    {
        if i > 0 {
            r.append(" ");
            proof {
                reveal_strlit(" ");
                assert(" "@ =~= seq![' ']);
            }
        }
        r.append(v[i].as_str());
        proof {
            let cv = comments_view(v@);
            assert(cv.take(i + 1).drop_last() =~= cv.take(i as int));
            assert(cv.take(i + 1).last() == cv[i as int]);
        }
        i = i + 1;
    }
    proof {
        assert(comments_view(v@).take(v@.len() as int) =~= comments_view(v@));
    }
    r
}

/// A copy of the events in `[a, b)`.
pub(crate) fn clone_range(events: &Vec<(usize, MdEvent)>, a: usize, b: usize) -> (r: Vec<(usize, MdEvent)>)
    requires
        a <= b <= events@.len(),
    ensures
        events_view(r@) == events_view(events@).subrange(a as int, b as int),
{
    let mut r: Vec<(usize, MdEvent)> = Vec::new();
    let mut i: usize = a;
    proof {
        assert(events_view(r@) =~= events_view(events@).subrange(a as int, a as int));
    }
    while i < b
        invariant
            a <= i <= b <= events@.len(),
            r@.len() == i - a,
            events_view(r@) == events_view(events@).subrange(a as int, i as int),
        decreases b - i,
    {
        let ghost prev = r@;
        let lineno: usize = events[i].0;
        let ev = events[i].1.clone();
        r.push((lineno, ev));
        proof {
            assert(r@ == prev + seq![(lineno, ev)]);
            let target = events_view(events@).subrange(a as int, i + 1);
            assert forall|k: int| 0 <= k < r@.len() implies events_view(r@)[k] == target[k] by {
                assert(events_view(r@)[k] == pos_event_view(r@[k]));
                assert(target[k] == events_view(events@)[a + k]);
                assert(events_view(events@)[a + k] == pos_event_view(events@[a + k]));
                if k < prev.len() {
                    assert(r@[k] == prev[k]);
                    assert(events_view(prev)[k] == pos_event_view(prev[k]));
                    assert(events_view(prev)[k] == events_view(events@).subrange(
                        a as int,
                        i as int,
                    )[k]);
                } else {
                    assert(r@[k] == (lineno, ev));
                    assert(ev@ == events@[i as int].1@);
                }
            }
            assert(events_view(r@) =~= target);
        }
        i = i + 1;
    }
    r
}

/// Emit the run `[a, b)` as one group.
///
/// A pending skip directive reclassifies exactly the group it
/// applies to — a translatable run emitted while `skip_next_group`
/// is set — as `Skip`, and is consumed by doing so; later groups are
/// unaffected.  Otherwise a translatable run takes the pending
/// comments, joined with single spaces.
fn emit_group(
    events: &Vec<(usize, MdEvent)>,
    a: usize,
    b: usize,
    translate: bool,
    ctx: GroupingContext,
) -> (r: (Group, GroupingContext))
    requires
        a <= b <= events@.len(),
    ensures
        group_events_of(r.0@) == events_view(events@).subrange(a as int, b as int),
        translate && ctx.skip_next_group ==> r.0@ is Skip && !r.1.skip_next_group
            && r.1.comments@ == ctx.comments@,
        translate && !ctx.skip_next_group ==> (r.0@ matches GroupS::Translate {
            events: _,
            comment,
        } && comment == spec_join_spaces(comments_view(ctx.comments@)) && r.1.comments@.len() == 0
            && r.1.skip_next_group == ctx.skip_next_group),
        !translate ==> r.0@ is Skip && r.1 == ctx,
{
    let slice = clone_range(events, a, b);
    if translate {
        if ctx.skip_next_group {
            (Group::Skip(slice), ctx.clear_skip_next_group())
        } else {
            let comment = join_comments(&ctx.comments);
            let new_ctx = GroupingContext { skip_next_group: ctx.skip_next_group, comments: Vec::new() };
            (Group::Translate { events: slice, comment }, new_ctx)
        }
    } else {
        (Group::Skip(slice), ctx)
    }
}

pub proof fn lemma_flatten_groups_push(gs: Seq<GroupS>, g: GroupS)
    ensures
        flatten_groups(gs.push(g)) == flatten_groups(gs) + group_events_of(g),
{
    assert(gs.push(g).drop_last() =~= gs);
    assert(gs.push(g).last() == g);
}

proof fn lemma_groups_view_push(gs: Seq<Group>, g: Group)
    ensures
        groups_view(gs.push(g)) =~= groups_view(gs).push(g@),
{
}

/// One step of bookkeeping after a group is emitted for `[start, upto)`.
proof fn lemma_partition_step(
    events: Seq<(usize, MdEventS)>,
    gs: Seq<GroupS>,
    g: GroupS,
    start: int,
    upto: int,
)
    requires
        0 <= start <= upto <= events.len(),
        flatten_groups(gs) == events.take(start),
        group_events_of(g) == events.subrange(start, upto),
    ensures
        flatten_groups(gs.push(g)) == events.take(upto),
{
    lemma_flatten_groups_push(gs, g);
    assert(events.take(start) + events.subrange(start, upto) =~= events.take(upto));
}

/// Partition the events into groups without looking inside code
/// blocks: the concatenation of the groups' events is exactly the
/// input, and the groups are exactly those of the grouping model.
fn raw_groups(events: &Vec<(usize, MdEvent)>) -> (groups: Vec<Group>)
    ensures
        flatten_groups(groups_view(groups@)) == events_view(events@),
        groups_view(groups@) == model_groups(
            events_view(events@),
            0,
            0,
            false,
            false,
            Seq::empty(),
        ),
{
    let mut groups: Vec<Group> = Vec::new();
    let mut ctx = GroupingContext { skip_next_group: false, comments: Vec::new() };
    let mut translate_mode: bool = false;
    let mut start: usize = 0;
    let mut idx: usize = 0;
    let ghost evs = events_view(events@);
    let ghost whole = model_groups(evs, 0, 0, false, false, Seq::empty());
    proof {
        assert(flatten_groups(groups_view(groups@)) =~= evs.take(0));
        assert(comments_view(ctx.comments@) =~= Seq::<Seq<char>>::empty());
        assert(groups_view(groups@) + model_groups(evs, 0, 0, false, false, Seq::empty())
            =~= whole);
    }
    while idx < events.len()
        invariant
            0 <= start <= idx <= events@.len(),
            evs == events_view(events@),
            whole == model_groups(evs, 0, 0, false, false, Seq::empty()),
            flatten_groups(groups_view(groups@)) == evs.take(start as int),
            whole == groups_view(groups@) + model_groups(
                evs,
                idx as int,
                start as int,
                translate_mode,
                ctx.skip_next_group,
                comments_view(ctx.comments@),
            ),
        decreases events@.len() - idx,
    {
        let ghost gs_prev = groups_view(groups@);
        let ghost t0 = translate_mode;
        let ghost f0 = ctx.skip_next_group;
        let ghost c0 = comments_view(ctx.comments@);
        let ghost start0 = start as int;
        let ghost idx0 = idx as int;
        proof {
            assert(evs[idx0] == pos_event_view(events@[idx0]));
        }
        match &events[idx].1 {
            MdEvent::Start(MdTag::Paragraph) | MdEvent::Start(MdTag::CodeBlock(_)) => {
                let (g, c) = emit_group(events, start, idx, translate_mode, ctx);
                ctx = c;
                proof {
                    lemma_partition_step(evs, gs_prev, g@, start0, idx0);
                    lemma_groups_view_push(groups@, g);
                    lemma_model_emit_matches(evs, start0, idx0, t0, f0, c0, g@, &ctx);
                    assert(begins_translate_block(evs[idx0].1));
                    lemma_step_assoc(
                        whole,
                        gs_prev,
                        g@,
                        model_groups(evs, idx0, start0, t0, f0, c0),
                        model_groups(
                            evs,
                            idx0 + 1,
                            idx0,
                            true,
                            ctx.skip_next_group,
                            comments_view(ctx.comments@),
                        ),
                    );
                }
                groups.push(g);
                translate_mode = true;
                start = idx;
            },
            MdEvent::End(MdTagEnd::Paragraph) | MdEvent::End(MdTagEnd::CodeBlock) => {
                let (g, c) = emit_group(events, start, idx + 1, translate_mode, ctx);
                ctx = c;
                proof {
                    lemma_partition_step(evs, gs_prev, g@, start0, idx0 + 1);
                    lemma_groups_view_push(groups@, g);
                    lemma_model_emit_matches(evs, start0, idx0 + 1, t0, f0, c0, g@, &ctx);
                    assert(ends_translate_block(evs[idx0].1));
                    lemma_step_assoc(
                        whole,
                        gs_prev,
                        g@,
                        model_groups(evs, idx0, start0, t0, f0, c0),
                        model_groups(
                            evs,
                            idx0 + 1,
                            idx0 + 1,
                            false,
                            ctx.skip_next_group,
                            comments_view(ctx.comments@),
                        ),
                    );
                }
                groups.push(g);
                translate_mode = false;
                start = idx + 1;
            },
            MdEvent::Start(MdTag::Emphasis) | MdEvent::Start(MdTag::Strong)
            | MdEvent::Start(MdTag::Strikethrough) | MdEvent::Start(MdTag::Link { .. })
            | MdEvent::Start(MdTag::Image { .. }) | MdEvent::End(MdTagEnd::Emphasis)
            | MdEvent::End(MdTagEnd::Strong) | MdEvent::End(MdTagEnd::Strikethrough)
            | MdEvent::End(MdTagEnd::Link) | MdEvent::End(MdTagEnd::Image)
            | MdEvent::Text(_) | MdEvent::Code(_) | MdEvent::FootnoteReference(_)
            | MdEvent::SoftBreak | MdEvent::HardBreak => {
                proof {
                    assert(is_inline_event(evs[idx0].1));
                }
                if !translate_mode {
                    let (g, c) = emit_group(events, start, idx, false, ctx);
                    ctx = c;
                    proof {
                        lemma_partition_step(evs, gs_prev, g@, start0, idx0);
                        lemma_groups_view_push(groups@, g);
                        lemma_model_emit_matches(evs, start0, idx0, false, f0, c0, g@, &ctx);
                        lemma_step_assoc(
                            whole,
                            gs_prev,
                            g@,
                            model_groups(evs, idx0, start0, false, f0, c0),
                            model_groups(
                                evs,
                                idx0 + 1,
                                idx0,
                                true,
                                ctx.skip_next_group,
                                comments_view(ctx.comments@),
                            ),
                        );
                    }
                    groups.push(g);
                    translate_mode = true;
                    start = idx;
                }
            },
            MdEvent::Html(html) => {
                proof {
                    assert(evs[idx0].1 == MdEventS::Html(html@));
                }
                match crate::directives::find(html.as_str()) {
                    Some(directives::Directive::Skip) => {
                        if translate_mode {
                            let (g, c) = emit_group(events, start, idx, true, ctx);
                            proof {
                                lemma_partition_step(evs, gs_prev, g@, start0, idx0);
                                lemma_model_emit_matches(evs, start0, idx0, true, f0, c0, g@, &c);
                                lemma_model_unfold_html(evs, idx0, start0, true, f0, c0);
                                assert(event_directive(evs[idx0].1) == Some(
                                    directives::DirectiveS::Skip,
                                ));
                                assert(model_groups(evs, idx0, start0, true, f0, c0) == seq![g@]
                                    + model_groups(evs, idx0 + 1, idx0, true, true,
                                    comments_view(c.comments@)));
                            }
                            ctx = c;
                            ctx.skip_next_group = true;
                            proof {
                                lemma_groups_view_push(groups@, g);
                                lemma_step_assoc(
                                    whole,
                                    gs_prev,
                                    g@,
                                    model_groups(evs, idx0, start0, true, f0, c0),
                                    model_groups(
                                        evs,
                                        idx0 + 1,
                                        idx0,
                                        true,
                                        true,
                                        comments_view(ctx.comments@),
                                    ),
                                );
                            }
                            groups.push(g);
                            start = idx;
                        } else {
                            ctx.skip_next_group = true;
                            proof {
                                lemma_model_unfold_html(evs, idx0, start0, false, f0, c0);
                                assert(event_directive(evs[idx0].1) == Some(
                                    directives::DirectiveS::Skip,
                                ));
                                assert(comments_view(ctx.comments@) == c0);
                                assert(model_groups(evs, idx0, start0, false, f0, c0)
                                    == model_groups(
                                    evs,
                                    idx0 + 1,
                                    start0,
                                    false,
                                    true,
                                    comments_view(ctx.comments@),
                                ));
                            }
                        }
                    },
                    Some(directives::Directive::Comment(comment)) => {
                        let ghost gcomment = comment@;
                        if translate_mode {
                            let (g, c) = emit_group(events, start, idx, true, ctx);
                            proof {
                                lemma_partition_step(evs, gs_prev, g@, start0, idx0);
                                lemma_model_emit_matches(evs, start0, idx0, true, f0, c0, g@, &c);
                            }
                            ctx = c;
                            let ghost cpre = comments_view(ctx.comments@);
                            ctx.comments.push(comment);
                            proof {
                                assert(comments_view(ctx.comments@) =~= cpre.push(gcomment));
                                lemma_model_unfold_html(evs, idx0, start0, true, f0, c0);
                                assert(event_directive(evs[idx0].1) == Some(
                                    directives::DirectiveS::Comment(gcomment),
                                ));
                                assert(model_groups(evs, idx0, start0, true, f0, c0) == seq![g@]
                                    + model_groups(evs, idx0 + 1, idx0, true,
                                    ctx.skip_next_group, comments_view(ctx.comments@)));
                                lemma_groups_view_push(groups@, g);
                                lemma_step_assoc(
                                    whole,
                                    gs_prev,
                                    g@,
                                    model_groups(evs, idx0, start0, true, f0, c0),
                                    model_groups(
                                        evs,
                                        idx0 + 1,
                                        idx0,
                                        true,
                                        ctx.skip_next_group,
                                        comments_view(ctx.comments@),
                                    ),
                                );
                            }
                            groups.push(g);
                            start = idx;
                        } else {
                            ctx.comments.push(comment);
                            proof {
                                assert(comments_view(ctx.comments@) =~= c0.push(gcomment));
                                lemma_model_unfold_html(evs, idx0, start0, false, f0, c0);
                                assert(event_directive(evs[idx0].1) == Some(
                                    directives::DirectiveS::Comment(gcomment),
                                ));
                                assert(model_groups(evs, idx0, start0, false, f0, c0)
                                    == model_groups(
                                    evs,
                                    idx0 + 1,
                                    start0,
                                    false,
                                    f0,
                                    comments_view(ctx.comments@),
                                ));
                            }
                        }
                    },
                    None => {
                        if translate_mode {
                            let (g, c) = emit_group(events, start, idx, true, ctx);
                            ctx = c;
                            proof {
                                lemma_partition_step(evs, gs_prev, g@, start0, idx0);
                                lemma_groups_view_push(groups@, g);
                                lemma_model_emit_matches(evs, start0, idx0, true, f0, c0, g@, &ctx);
                                lemma_model_unfold_html(evs, idx0, start0, true, f0, c0);
                                assert(event_directive(evs[idx0].1) is None);
                                assert(model_groups(evs, idx0, start0, true, f0, c0) == seq![g@]
                                    + model_groups(evs, idx0 + 1, idx0, false,
                                    ctx.skip_next_group, comments_view(ctx.comments@)));
                                lemma_step_assoc(
                                    whole,
                                    gs_prev,
                                    g@,
                                    model_groups(evs, idx0, start0, true, f0, c0),
                                    model_groups(
                                        evs,
                                        idx0 + 1,
                                        idx0,
                                        false,
                                        ctx.skip_next_group,
                                        comments_view(ctx.comments@),
                                    ),
                                );
                            }
                            groups.push(g);
                            translate_mode = false;
                            start = idx;
                        } else {
                            proof {
                                lemma_model_unfold_html(evs, idx0, start0, false, f0, c0);
                                assert(event_directive(evs[idx0].1) is None);
                                assert(model_groups(evs, idx0, start0, false, f0, c0)
                                    == model_groups(evs, idx0 + 1, start0, false, f0, c0));
                            }
                        }
                    },
                }
            },
            MdEvent::InlineHtml(html) => {
                proof {
                    assert(evs[idx0].1 == MdEventS::InlineHtml(html@));
                }
                match crate::directives::find(html.as_str()) {
                    Some(directives::Directive::Skip) => {
                        if translate_mode {
                            let (g, c) = emit_group(events, start, idx, true, ctx);
                            proof {
                                lemma_partition_step(evs, gs_prev, g@, start0, idx0);
                                lemma_model_emit_matches(evs, start0, idx0, true, f0, c0, g@, &c);
                                lemma_model_unfold_html(evs, idx0, start0, true, f0, c0);
                                assert(event_directive(evs[idx0].1) == Some(
                                    directives::DirectiveS::Skip,
                                ));
                                assert(model_groups(evs, idx0, start0, true, f0, c0) == seq![g@]
                                    + model_groups(evs, idx0 + 1, idx0, true, true,
                                    comments_view(c.comments@)));
                            }
                            ctx = c;
                            ctx.skip_next_group = true;
                            proof {
                                lemma_groups_view_push(groups@, g);
                                lemma_step_assoc(
                                    whole,
                                    gs_prev,
                                    g@,
                                    model_groups(evs, idx0, start0, true, f0, c0),
                                    model_groups(
                                        evs,
                                        idx0 + 1,
                                        idx0,
                                        true,
                                        true,
                                        comments_view(ctx.comments@),
                                    ),
                                );
                            }
                            groups.push(g);
                            start = idx;
                        } else {
                            ctx.skip_next_group = true;
                            proof {
                                lemma_model_unfold_html(evs, idx0, start0, false, f0, c0);
                                assert(event_directive(evs[idx0].1) == Some(
                                    directives::DirectiveS::Skip,
                                ));
                                assert(comments_view(ctx.comments@) == c0);
                                assert(model_groups(evs, idx0, start0, false, f0, c0)
                                    == model_groups(
                                    evs,
                                    idx0 + 1,
                                    start0,
                                    false,
                                    true,
                                    comments_view(ctx.comments@),
                                ));
                            }
                        }
                    },
                    Some(directives::Directive::Comment(comment)) => {
                        let ghost gcomment = comment@;
                        if translate_mode {
                            let (g, c) = emit_group(events, start, idx, true, ctx);
                            proof {
                                lemma_partition_step(evs, gs_prev, g@, start0, idx0);
                                lemma_model_emit_matches(evs, start0, idx0, true, f0, c0, g@, &c);
                            }
                            ctx = c;
                            let ghost cpre = comments_view(ctx.comments@);
                            ctx.comments.push(comment);
                            proof {
                                assert(comments_view(ctx.comments@) =~= cpre.push(gcomment));
                                lemma_model_unfold_html(evs, idx0, start0, true, f0, c0);
                                assert(event_directive(evs[idx0].1) == Some(
                                    directives::DirectiveS::Comment(gcomment),
                                ));
                                assert(model_groups(evs, idx0, start0, true, f0, c0) == seq![g@]
                                    + model_groups(evs, idx0 + 1, idx0, true,
                                    ctx.skip_next_group, comments_view(ctx.comments@)));
                                lemma_groups_view_push(groups@, g);
                                lemma_step_assoc(
                                    whole,
                                    gs_prev,
                                    g@,
                                    model_groups(evs, idx0, start0, true, f0, c0),
                                    model_groups(
                                        evs,
                                        idx0 + 1,
                                        idx0,
                                        true,
                                        ctx.skip_next_group,
                                        comments_view(ctx.comments@),
                                    ),
                                );
                            }
                            groups.push(g);
                            start = idx;
                        } else {
                            ctx.comments.push(comment);
                            proof {
                                assert(comments_view(ctx.comments@) =~= c0.push(gcomment));
                                lemma_model_unfold_html(evs, idx0, start0, false, f0, c0);
                                assert(event_directive(evs[idx0].1) == Some(
                                    directives::DirectiveS::Comment(gcomment),
                                ));
                                assert(model_groups(evs, idx0, start0, false, f0, c0)
                                    == model_groups(
                                    evs,
                                    idx0 + 1,
                                    start0,
                                    false,
                                    f0,
                                    comments_view(ctx.comments@),
                                ));
                            }
                        }
                    },
                    None => {
                        if !translate_mode {
                            let (g, c) = emit_group(events, start, idx, false, ctx);
                            ctx = c;
                            proof {
                                lemma_partition_step(evs, gs_prev, g@, start0, idx0);
                                lemma_groups_view_push(groups@, g);
                                lemma_model_emit_matches(
                                    evs,
                                    start0,
                                    idx0,
                                    false,
                                    f0,
                                    c0,
                                    g@,
                                    &ctx,
                                );
                                lemma_model_unfold_html(evs, idx0, start0, false, f0, c0);
                                assert(event_directive(evs[idx0].1) is None);
                                assert(model_groups(evs, idx0, start0, false, f0, c0) == seq![g@]
                                    + model_groups(evs, idx0 + 1, idx0, true,
                                    ctx.skip_next_group, comments_view(ctx.comments@)));
                                lemma_step_assoc(
                                    whole,
                                    gs_prev,
                                    g@,
                                    model_groups(evs, idx0, start0, false, f0, c0),
                                    model_groups(
                                        evs,
                                        idx0 + 1,
                                        idx0,
                                        true,
                                        ctx.skip_next_group,
                                        comments_view(ctx.comments@),
                                    ),
                                );
                            }
                            groups.push(g);
                            translate_mode = true;
                            start = idx;
                        } else {
                            proof {
                                lemma_model_unfold_html(evs, idx0, start0, true, f0, c0);
                                assert(event_directive(evs[idx0].1) is None);
                                assert(model_groups(evs, idx0, start0, true, f0, c0)
                                    == model_groups(evs, idx0 + 1, start0, true, f0, c0));
                            }
                        }
                    },
                }
            },
            _ => {
                proof {
                    assert(!begins_translate_block(evs[idx0].1));
                    assert(!ends_translate_block(evs[idx0].1));
                    assert(!is_inline_event(evs[idx0].1));
                    assert(!(evs[idx0].1 matches MdEventS::Html(_)));
                    assert(!(evs[idx0].1 matches MdEventS::InlineHtml(_)));
                }
                if translate_mode {
                    let (g, c) = emit_group(events, start, idx, true, ctx);
                    ctx = c;
                    proof {
                        lemma_partition_step(evs, gs_prev, g@, start0, idx0);
                        lemma_groups_view_push(groups@, g);
                        lemma_model_emit_matches(evs, start0, idx0, true, f0, c0, g@, &ctx);
                        lemma_step_assoc(
                            whole,
                            gs_prev,
                            g@,
                            model_groups(evs, idx0, start0, true, f0, c0),
                            model_groups(
                                evs,
                                idx0 + 1,
                                idx0,
                                false,
                                ctx.skip_next_group,
                                comments_view(ctx.comments@),
                            ),
                        );
                    }
                    groups.push(g);
                    translate_mode = false;
                    start = idx;
                }
            },
        }
        idx = idx + 1;
    }
    let ghost gs_prev = groups_view(groups@);
    let tail = clone_range(events, start, events.len());
    let g: Group = if translate_mode {
        Group::Translate { events: tail, comment: String::new() }
    } else {
        Group::Skip(tail)
    };
    proof {
        lemma_partition_step(evs, gs_prev, g@, start as int, evs.len() as int);
        lemma_groups_view_push(groups@, g);
        assert(evs.take(evs.len() as int) =~= evs);
        assert(model_groups(
            evs,
            idx as int,
            start as int,
            translate_mode,
            ctx.skip_next_group,
            comments_view(ctx.comments@),
        ) == seq![g@]);
        assert(gs_prev + seq![g@] =~= gs_prev.push(g@));
    }
    groups.push(g);
    groups
}

/// Unfold the model at an HTML event.
proof fn lemma_model_unfold_html(
    evs: Seq<(usize, MdEventS)>,
    idx: int,
    start: int,
    t: bool,
    f: bool,
    c: Seq<Seq<char>>,
)
    requires
        0 <= idx < evs.len(),
        evs[idx].1 matches MdEventS::Html(_) || evs[idx].1 matches MdEventS::InlineHtml(_),
    ensures
        model_groups(evs, idx, start, t, f, c) == model_groups_html(evs, idx, start, t, f, c),
{
    assert(!begins_translate_block(evs[idx].1));
    assert(!ends_translate_block(evs[idx].1));
}

/// The emission of `emit_group` agrees with the model's emission.
proof fn lemma_model_emit_matches(
    evs: Seq<(usize, MdEventS)>,
    start: int,
    end: int,
    translate: bool,
    skip_next: bool,
    comments: Seq<Seq<char>>,
    g: GroupS,
    ctx: &GroupingContext,
)
    requires
        group_events_of(g) == evs.subrange(start, end),
        translate && skip_next ==> g is Skip && !ctx.skip_next_group && comments_view(
            ctx.comments@,
        ) == comments,
        translate && !skip_next ==> (g matches GroupS::Translate { events: _, comment }
            && comment == spec_join_spaces(comments) && comments_view(ctx.comments@).len() == 0
            && ctx.skip_next_group == skip_next),
        !translate ==> g is Skip && ctx.skip_next_group == skip_next && comments_view(
            ctx.comments@,
        ) == comments,
    ensures
        model_emit(evs, start, end, translate, skip_next, comments) == (
            g,
            ctx.skip_next_group,
            comments_view(ctx.comments@),
        ),
{
    let run = evs.subrange(start, end);
    if translate && skip_next {
        assert(g == GroupS::Skip(run));
    } else if translate {
        assert(g == (GroupS::Translate { events: run, comment: spec_join_spaces(comments) }));
        assert(comments_view(ctx.comments@) =~= Seq::<Seq<char>>::empty());
    } else {
        assert(g == GroupS::Skip(run));
    }
}

/// Regroup an emitted group into the running concatenation.
proof fn lemma_step_assoc(
    whole: Seq<GroupS>,
    prefix: Seq<GroupS>,
    g: GroupS,
    old_rest: Seq<GroupS>,
    new_rest: Seq<GroupS>,
)
    requires
        whole == prefix + old_rest,
        old_rest == seq![g] + new_rest,
    ensures
        whole == prefix.push(g) + new_rest,
{
    assert(prefix + (seq![g] + new_rest) =~= prefix.push(g) + new_rest);
}


/// Whether the events have the shape of one code block: an opening
/// fence first and a closing fence last.
pub open spec fn spec_is_codeblock_group(evs: Seq<(usize, MdEventS)>) -> bool {
    &&& evs.len() >= 2
    &&& evs[0].1 matches MdEventS::Start(MdTagS::CodeBlock(_))
    &&& evs.last().1 == MdEventS::End(MdTagEnd::CodeBlock)
}

fn is_codeblock_group(events: &Vec<(usize, MdEvent)>) -> (r: bool)
    ensures
        r == spec_is_codeblock_group(events_view(events@)),
{
    let n = events.len();
    if n < 2 {
        return false;
    }
    let first_ok = match &events[0].1 {
        MdEvent::Start(MdTag::CodeBlock(_)) => true,
        _ => false,
    };
    let last_ok = match &events[n - 1].1 {
        MdEvent::End(MdTagEnd::CodeBlock) => true,
        _ => false,
    };
    proof {
        assert(events_view(events@)[0] == pos_event_view(events@[0]));
        assert(events_view(events@).last() == pos_event_view(events@[n - 1]));
    }
    first_ok && last_ok
}

/// Whether every event is a text event.
pub open spec fn all_texts(evs: Seq<MdEventS>) -> bool {
    forall|j: int| 0 <= j < evs.len() ==> evs[j] is Text
}

proof fn lemma_texts_concat_push(evs: Seq<MdEventS>, e: MdEventS)
    ensures
        texts_concat(evs.push(e)) == texts_concat(evs) + (match e {
            MdEventS::Text(t) => t,
            _ => Seq::<char>::empty(),
        }),
{
    assert(evs.push(e).drop_last() =~= evs);
}

proof fn lemma_texts_concat_concat(a: Seq<MdEventS>, b: Seq<MdEventS>)
    ensures
        texts_concat(a + b) == texts_concat(a) + texts_concat(b),
    decreases b.len(),
{
    if b.len() == 0 {
        assert(a + b =~= a);
        assert(texts_concat(a) + texts_concat(b) =~= texts_concat(a));
    } else {
        lemma_texts_concat_concat(a, b.drop_last());
        assert((a + b).drop_last() =~= a + b.drop_last());
        assert((a + b).last() == b.last());
        assert(texts_concat(a) + texts_concat(b.drop_last()) + (match b.last() {
            MdEventS::Text(t) => t,
            _ => Seq::<char>::empty(),
        }) =~= texts_concat(a) + texts_concat(b));
    }
}

proof fn lemma_flatten_groups_concat(g1: Seq<GroupS>, g2: Seq<GroupS>)
    ensures
        flatten_groups(g1 + g2) == flatten_groups(g1) + flatten_groups(g2),
    decreases g2.len(),
{
    if g2.len() == 0 {
        assert(g1 + g2 =~= g1);
        assert(flatten_groups(g1) + flatten_groups(g2) =~= flatten_groups(g1));
    } else {
        lemma_flatten_groups_concat(g1, g2.drop_last());
        assert((g1 + g2).drop_last() =~= g1 + g2.drop_last());
        assert((g1 + g2).last() == g2.last());
        assert(flatten_groups(g1) + flatten_groups(g2.drop_last()) + group_events_of(g2.last())
            =~= flatten_groups(g1) + flatten_groups(g2));
    }
}

proof fn lemma_bare_concat(a: Seq<(usize, MdEventS)>, b: Seq<(usize, MdEventS)>)
    ensures
        bare_events(a + b) =~= bare_events(a) + bare_events(b),
{
}

/// Whether the characters are only spaces and tabs.
pub open spec fn blank_chars(t: Seq<char>) -> bool {
    forall|j: int| 0 <= j < t.len() ==> t[j] == ' ' || t[j] == '\t'
}

/// Whether a text event holds only spaces and tabs.
pub open spec fn is_blank_text(ev: MdEventS) -> bool {
    match ev {
        MdEventS::Text(t) => blank_chars(t),
        _ => false,
    }
}

fn is_blank_string(s: &String) -> (r: bool)
    ensures
        r == blank_chars(s@),
{
    let chars = crate::text::str_chars(s.as_str());
    let mut i: usize = 0;
    while i < chars.len()
        invariant
            0 <= i <= chars@.len(),
            chars@ == s@,
            forall|j: int| 0 <= j < i ==> s@[j] == ' ' || s@[j] == '\t',
        decreases chars@.len() - i,
    {
        if chars[i] != ' ' && chars[i] != '\t' {
            assert(!blank_chars(s@));
            return false;
        }
        i = i + 1;
    }
    true
}

/// Move the maximal trailing run of all-blank text events out of
/// `buf`, keeping their order: every moved event is blank, and what
/// remains does not end in one.
fn extract_trailing_whitespaces(buf: &mut Vec<(usize, MdEvent)>) -> (r: Vec<(usize, MdEvent)>)
    ensures
        events_view(old(buf)@) == events_view(final(buf)@) + events_view(r@),
        forall|i: int| 0 <= i < r@.len() ==> is_blank_text((#[trigger] r@[i]).1@),
        final(buf)@.len() > 0 ==> !is_blank_text(final(buf)@.last().1@),
{
    let mut cut: usize = buf.len();
    while cut > 0 && is_blank_event(&buf[cut - 1].1)
        invariant
            0 <= cut <= buf@.len(),
            forall|m: int| cut <= m < buf@.len() ==> is_blank_text((#[trigger] buf@[m]).1@),
        decreases cut,
    {
        cut = cut - 1;
    }
    let r = clone_range(buf, cut, buf.len());
    let ghost before = buf@;
    buf.truncate(cut);
    proof {
        assert(buf@ =~= before.take(cut as int));
        assert(events_view(buf@) =~= events_view(before).subrange(0, cut as int));
        assert(events_view(before).subrange(0, cut as int) + events_view(before).subrange(
            cut as int,
            before.len() as int,
        ) =~= events_view(before));
        assert forall|i: int| 0 <= i < r@.len() implies is_blank_text(
            (#[trigger] r@[i]).1@,
        ) by {
            assert(events_view(r@)[i] == pos_event_view(r@[i]));
            assert(events_view(r@)[i] == events_view(before).subrange(
                cut as int,
                before.len() as int,
            )[i]);
            assert(events_view(before)[cut + i] == pos_event_view(before[cut + i]));
            assert(is_blank_text(before[cut + i].1@));
        }
        if cut > 0 {
            assert(!is_blank_text(before[cut - 1].1@));
            assert(buf@.last() == before[cut - 1]);
        }
    }
    r
}

fn is_blank_event(e: &MdEvent) -> (r: bool)
    ensures
        r == is_blank_text(e@),
{
    match e {
        MdEvent::Text(t) => is_blank_string(t),
        _ => false,
    }
}

/// Whether any scope on the stack makes its text translatable: a
/// scope below `string` or `comment`.
fn is_translate_stack(stack: &syntect::parsing::ScopeStack) -> bool {
    let scopes = crate::syntax::scope_stack_scopes(stack);
    let string_scope = crate::syntax::scope_new("string");
    let comment_scope = crate::syntax::scope_new("comment");
    let mut i: usize = 0;
    while i < scopes.len()
        decreases scopes@.len() - i,
    {
        let x = scopes[i];
        let is_string = match string_scope {
            Some(sc) => crate::syntax::scope_is_prefix_of(sc, x),
            None => false,
        };
        let is_comment = match comment_scope {
            Some(sc) => crate::syntax::scope_is_prefix_of(sc, x),
            None => false,
        };
        if is_string || is_comment {
            return true;
        }
        i = i + 1;
    }
    false
}

fn count_char_newlines(s: &String) -> (r: usize)
    ensures
        r <= s@.len(),
        s@.len() > 0 && s@.last() == '\n' ==> r >= 1,
{
    let chars = crate::text::str_chars(s.as_str());
    let mut c: usize = 0;
    let mut i: usize = 0;
    while i < chars.len()
        invariant
            0 <= i <= chars@.len(),
            chars@ == s@,
            c <= i,
            (exists|j: int| 0 <= j < i && s@[j] == '\n') ==> c >= 1,
        decreases chars@.len() - i,
    {
        if chars[i] == '\n' {
            c = c + 1;
        }
        i = i + 1;
    }
    c
}

fn ends_with_newline(s: &String) -> (r: bool)
    ensures
        r == (s@.len() > 0 && s@.last() == '\n'),
{
    let chars = crate::text::str_chars(s.as_str());
    if chars.len() == 0 {
        false
    } else {
        chars[chars.len() - 1] == '\n'
    }
}

fn saturating_add(a: usize, b: usize) -> (r: usize)
    ensures
        a + b <= usize::MAX ==> r == a + b,
        r >= a,
        r >= b,
{
    if a <= usize::MAX - b {
        a + b
    } else {
        usize::MAX
    }
}

/// Tokenize one text event of a code block into translatable and
/// skipped sub-groups.  The emitted events are all text events that
/// together carry exactly the characters of `text`.  The returned
/// string is what remains of the translator comment, and the flag
/// says whether a translatable sub-group consumed it.
fn tokenize_text_event(
    ps: &mut syntect::parsing::ParseState,
    ss: &syntect::parsing::SyntaxSet,
    text_line: usize,
    text: &String,
    comment: String,
    used: bool,
) -> (r: (Vec<Group>, String, bool))
    ensures
        all_texts(bare_events(flatten_groups(groups_view(r.0@)))),
        texts_concat(bare_events(flatten_groups(groups_view(r.0@)))) == text@,
        r.1@ == comment@ || r.1@ == Seq::<char>::empty(),
{
    let pieces = match crate::syntax::tokenize_line(ps, ss, text.as_str()) {
        Some(pieces) => pieces,
        None => {
            // The tokenizer failed: the whole event is translated.
            return (whole_text_translate(text_line, text, comment), String::new(), true);
        },
    };
    let ghost piece_texts = crate::syntax::pieces_view(pieces@);
    let ghost c0 = comment@;
    let mut comment = comment;
    let mut used = used;
    let mut stack = crate::syntax::scope_stack_new();
    let mut stack_failure = false;
    let mut translate_events: Vec<(usize, MdEvent)> = Vec::new();
    let mut groups_local: Vec<Group> = Vec::new();
    let mut nl_count: usize = 0;
    let mut prefix_empty: bool = true;
    let mut prev_last_nl: bool = false;
    let mut pidx: usize = 0;
    let ghost mut emitted: Seq<(usize, MdEventS)> = Seq::empty();
    proof {
        assert(flatten_groups(groups_view(groups_local@)) =~= Seq::<(usize, MdEventS)>::empty());
        assert(flatten_groups(groups_view(groups_local@)) + events_view(translate_events@)
            =~= emitted);
        assert(bare_events(emitted) =~= Seq::<MdEventS>::empty());
        assert(piece_texts.take(0) =~= Seq::<Seq<char>>::empty());
        assert(texts_concat(bare_events(emitted)) =~= piece_texts.take(0).flatten());
    }
    while pidx < pieces.len()
        invariant_except_break
            !stack_failure,
        invariant
            0 <= pidx <= pieces@.len(),
            piece_texts == crate::syntax::pieces_view(pieces@),
            piece_texts.flatten() == text@,
            flatten_groups(groups_view(groups_local@)) + events_view(translate_events@)
                == emitted,
            all_texts(bare_events(emitted)),
            texts_concat(bare_events(emitted)) == piece_texts.take(pidx as int).flatten(),
            prev_last_nl ==> nl_count >= 1,
            comment@ == c0 || comment@ == Seq::<char>::empty(),
        ensures
            stack_failure || pidx == pieces@.len(),
        decreases pieces@.len() - pidx,
    {
        let ok = crate::syntax::scope_stack_apply(&mut stack, &pieces[pidx].1);
        if !ok {
            stack_failure = true;
            break;
        }
        let piece: &String = &pieces[pidx].0;
        proof {
            lemma_flatten_take_next(piece_texts, pidx as int);
            assert(piece_texts[pidx as int] == piece@);
        }
        if piece.as_str().unicode_len() == 0 {
            proof {
                assert(piece_texts.take(pidx + 1).flatten() =~= piece_texts.take(
                    pidx as int,
                ).flatten());
            }
            pidx = pidx + 1;
            continue;
        }
        let range_line: usize = if prefix_empty {
            text_line
        } else if prev_last_nl {
            saturating_add(text_line, nl_count - 1)
        } else {
            saturating_add(text_line, nl_count)
        };
        let is_whitespace = is_blank_string(piece);
        let is_translate = is_translate_stack(&stack);
        let pair = (range_line, MdEvent::Text(piece.clone()));
        let ghost gpair = pair;
        if is_translate || (is_whitespace && translate_events.len() > 0) {
            let ghost prev_t = translate_events@;
            translate_events.push(pair);
            proof {
                assert(events_view(translate_events@) =~= events_view(prev_t).push(
                    pos_event_view(gpair),
                ));
                lemma_emit_one(emitted, gpair, piece@, piece_texts, pidx as int);
                emitted = emitted.push(pos_event_view(gpair));
                assert(flatten_groups(groups_view(groups_local@)) + events_view(
                    translate_events@,
                ) =~= emitted);
            }
        } else {
            let (c2, u2) = flush_translate(&mut groups_local, &mut translate_events, comment, used);
            comment = c2;
            used = u2;
            let mut single: Vec<(usize, MdEvent)> = Vec::new();
            single.push(pair);
            let g = Group::Skip(single);
            proof {
                assert(group_events_of(g@) =~= seq![pos_event_view(gpair)]);
                lemma_groups_view_push(groups_local@, g);
                lemma_flatten_groups_push(groups_view(groups_local@), g@);
            }
            groups_local.push(g);
            proof {
                lemma_emit_one(emitted, gpair, piece@, piece_texts, pidx as int);
                emitted = emitted.push(pos_event_view(gpair));
                assert(flatten_groups(groups_view(groups_local@)) + events_view(
                    translate_events@,
                ) =~= emitted);
            }
        }
        let added_nl = count_char_newlines(piece);
        nl_count = saturating_add(nl_count, added_nl);
        prev_last_nl = ends_with_newline(piece);
        prefix_empty = false;
        pidx = pidx + 1;
    }
    if stack_failure {
        // A stack operation failed: surrender and translate the
        // whole event unchanged.
        return (whole_text_translate(text_line, text, comment), String::new(), true);
    }
    let ghost pre_gl = groups_view(groups_local@);
    let ghost pre_te = events_view(translate_events@);
    let (c2, u2) = flush_translate(&mut groups_local, &mut translate_events, comment, used);
    proof {
        let fl = flatten_groups(groups_view(groups_local@));
        assert(fl == flatten_groups(pre_gl) + pre_te);
        assert(fl == emitted);
        assert(pidx == pieces@.len());
        assert(piece_texts.take(pidx as int) =~= piece_texts);
        assert(texts_concat(bare_events(emitted)) == piece_texts.flatten());
        assert(texts_concat(bare_events(fl)) == text@);
        assert(all_texts(bare_events(fl)));
    }
    (groups_local, c2, u2)
}

/// The whole text event as a single translatable group.
fn whole_text_translate(text_line: usize, text: &String, comment: String) -> (r: Vec<Group>)
    ensures
        all_texts(bare_events(flatten_groups(groups_view(r@)))),
        texts_concat(bare_events(flatten_groups(groups_view(r@)))) == text@,
{
    let mut evs: Vec<(usize, MdEvent)> = Vec::new();
    evs.push((text_line, MdEvent::Text(text.clone())));
    let mut r: Vec<Group> = Vec::new();
    let g = Group::Translate { events: evs, comment };
    proof {
        assert(group_events_of(g@).len() == 1);
        assert(group_events_of(g@)[0].1 == MdEventS::Text(text@));
    }
    r.push(g);
    proof {
        assert(groups_view(r@) =~= Seq::<GroupS>::empty().push(g@));
        lemma_flatten_groups_push(Seq::<GroupS>::empty(), g@);
        assert(flatten_groups(groups_view(r@)) =~= group_events_of(g@));
        let b = bare_events(flatten_groups(groups_view(r@)));
        assert(b.len() == 1);
        assert(b[0] == MdEventS::Text(text@));
        assert(b.drop_last() =~= Seq::<MdEventS>::empty());
        assert(texts_concat(b) == texts_concat(b.drop_last()) + text@);
        assert(texts_concat(Seq::<MdEventS>::empty()) + text@ =~= text@);
    }
    r
}

/// Flush the pending translatable buffer: its trailing blank text
/// events become a separate skipped group, the rest one translatable
/// group that takes the comment.  The emitted events are exactly the
/// buffer, in order.
fn flush_translate(
    groups_local: &mut Vec<Group>,
    translate_events: &mut Vec<(usize, MdEvent)>,
    comment: String,
    used: bool,
) -> (r: (String, bool))
    ensures
        flatten_groups(groups_view(final(groups_local)@)) == flatten_groups(
            groups_view(old(groups_local)@),
        ) + events_view(old(translate_events)@),
        final(translate_events)@.len() == 0,
        r.0@ == comment@ || r.0@ == Seq::<char>::empty(),
{
    let ghost original = events_view(translate_events@);
    let ws_evs = extract_trailing_whitespaces(translate_events);
    let ghost g0 = groups_view(groups_local@);
    let ghost kept = events_view(translate_events@);
    let ghost wsv = events_view(ws_evs@);
    let mut comment = comment;
    let mut used = used;
    if translate_events.len() > 0 {
        let c = comment;
        comment = String::new();
        used = true;
        let mut moved: Vec<(usize, MdEvent)> = Vec::new();
        core_swap(&mut moved, translate_events);
        let g = Group::Translate { events: moved, comment: c };
        proof {
            assert(group_events_of(g@) == kept);
            lemma_groups_view_push(groups_local@, g);
            lemma_flatten_groups_push(groups_view(groups_local@), g@);
        }
        groups_local.push(g);
    } else {
        let mut drained: Vec<(usize, MdEvent)> = Vec::new();
        core_swap(&mut drained, translate_events);
        proof {
            assert(kept =~= Seq::<(usize, MdEventS)>::empty());
        }
    }
    if ws_evs.len() > 0 {
        let g = Group::Skip(ws_evs);
        proof {
            assert(group_events_of(g@) == wsv);
            lemma_groups_view_push(groups_local@, g);
            lemma_flatten_groups_push(groups_view(groups_local@), g@);
        }
        groups_local.push(g);
    } else {
        proof {
            assert(wsv =~= Seq::<(usize, MdEventS)>::empty());
        }
    }
    proof {
        assert(flatten_groups(groups_view(groups_local@)) =~= flatten_groups(g0) + kept + wsv);
        assert(flatten_groups(g0) + kept + wsv =~= flatten_groups(g0) + original);
    }
    (comment, used)
}

proof fn lemma_emit_one(
    emitted: Seq<(usize, MdEventS)>,
    pair: (usize, MdEvent),
    piece: Seq<char>,
    piece_texts: Seq<Seq<char>>,
    pidx: int,
)
    requires
        pair.1@ == MdEventS::Text(piece),
        all_texts(bare_events(emitted)),
        texts_concat(bare_events(emitted)) == piece_texts.take(pidx).flatten(),
        0 <= pidx < piece_texts.len(),
        piece_texts[pidx] == piece,
    ensures
        all_texts(bare_events(emitted.push(pos_event_view(pair)))),
        texts_concat(bare_events(emitted.push(pos_event_view(pair)))) == piece_texts.take(
            pidx + 1,
        ).flatten(),
{
    lemma_flatten_take_next(piece_texts, pidx);
    let b = bare_events(emitted);
    let nb = bare_events(emitted.push(pos_event_view(pair)));
    assert(nb =~= b.push(pair.1@));
    lemma_texts_concat_push(b, pair.1@);
    assert forall|j: int| 0 <= j < nb.len() implies nb[j] is Text by {
        if j < b.len() {
            assert(nb[j] == b[j]);
        } else {
            assert(nb[j] == pair.1@);
        }
    }
}

/// Relies on `core::mem::swap`: exchanges two values.
#[verifier::external_body]
fn core_swap(a: &mut Vec<(usize, MdEvent)>, b: &mut Vec<(usize, MdEvent)>)
    ensures
        final(a)@ == old(b)@,
        final(b)@ == old(a)@,
{
    core::mem::swap(a, b);
}


proof fn lemma_flatten_take_next(v: Seq<Seq<char>>, i: int)
    requires
        0 <= i < v.len(),
    ensures
        v.take(i + 1).flatten() == v.take(i).flatten() + v[i],
{
    assert(v.take(i + 1) =~= v.take(i).push(v[i]));
    vstd::seq_lib::lemma_flatten_concat(v.take(i), seq![v[i]]);
    assert(v.take(i) + seq![v[i]] =~= v.take(i).push(v[i]));
    assert(seq![v[i]].flatten() =~= v[i]) by {
        assert(seq![v[i]].drop_first() =~= Seq::<Seq<char>>::empty());
        assert(seq![v[i]].flatten() == v[i] + Seq::<Seq<char>>::empty().flatten());
    }
}




proof fn lemma_parts_push(parts: Seq<Seq<MdEventS>>, p: Seq<MdEventS>)
    ensures
        parts.push(p).flatten() == parts.flatten() + p,
{
    lemma_flatten_concat(parts, seq![p]);
    assert(parts + seq![p] =~= parts.push(p));
    assert(seq![p].flatten() =~= p) by {
        assert(seq![p].drop_first() =~= Seq::<Seq<MdEventS>>::empty());
        assert(seq![p].flatten() == p + Seq::<Seq<MdEventS>>::empty().flatten());
    }
}

/// The characters of `s` before its first comma.
pub open spec fn spec_first_comma_token(s: Seq<char>) -> Seq<char> {
    s.take(first_comma(s, 0))
}

pub open spec fn first_comma(s: Seq<char>, i: int) -> int
    decreases s.len() - i,
{
    if i < 0 || i >= s.len() || s[i] == ',' {
        i
    } else {
        first_comma(s, i + 1)
    }
}

fn first_comma_token(s: &String) -> (r: String)
    ensures
        r@ == spec_first_comma_token(s@),
{
    let chars = crate::text::str_chars(s.as_str());
    let mut i: usize = 0;
    while i < chars.len() && chars[i] != ','
        invariant
            0 <= i <= chars@.len(),
            chars@ == s@,
            first_comma(s@, 0) == first_comma(s@, i as int),
        decreases chars@.len() - i,
    {
        i = i + 1;
    }
    let mut out: Vec<char> = Vec::new();
    let mut k: usize = 0;
    while k < i
        invariant
            0 <= k <= i <= chars@.len(),
            chars@ == s@,
            out@ =~= s@.take(k as int),
        decreases i - k,
    {
        out.push(chars[k]);
        proof {
            assert(out@ =~= s@.take(k + 1));
        }
        k = k + 1;
    }
    crate::text::chars_to_string(out.as_slice())
}

/// Whether the text holds a double quote or a double slash, the
/// heuristic marks of translatable code.
pub open spec fn has_quote_or_dslash(s: Seq<char>) -> bool {
    (exists|i: int| 0 <= i < s.len() && #[trigger] s[i] == '"') || (exists|i: int|
        0 <= i && i + 1 < s.len() && #[trigger] s[i] == '/' && s[i + 1] == '/')
}

fn exec_has_quote_or_dslash(s: &str) -> (r: bool)
    ensures
        r == has_quote_or_dslash(s@),
{
    let chars = crate::text::str_chars(s);
    let mut i: usize = 0;
    while i < chars.len()
        invariant
            0 <= i <= chars@.len(),
            chars@ == s@,
            forall|j: int| 0 <= j < i ==> #[trigger] s@[j] != '"',
            forall|j: int|
                0 <= j && j + 1 < chars@.len() && j < i ==> !(#[trigger] s@[j] == '/' && s@[j
                    + 1] == '/'),
        decreases chars@.len() - i,
    {
        if chars[i] == '"' {
            return true;
        }
        if chars[i] == '/' && i + 1 < chars.len() && chars[i + 1] == '/' {
            return true;
        }
        i = i + 1;
    }
    proof {
        assert(!has_quote_or_dslash(s@));
    }
    false
}

/// Classify a whole code block by inspection of its reconstructed
/// text: it is translated exactly when it holds a string literal or
/// a line comment.  The events pass through as one group either
/// way; a block that does not reconstruct, or whose events do not
/// form one code block, is translated.
fn heuristic_codeblock(events: &Vec<(usize, MdEvent)>, comment: String) -> (r: (Vec<Group>, String))
    ensures
        splits_of(
            bare_events(events_view(events@)),
            bare_events(flatten_groups(groups_view(r.0@))),
        ),
        flatten_groups(groups_view(r.0@)) == events_view(events@),
        groups_view(r.0@).len() == 1,
        ({
            let evs = bare_events(events_view(events@));
            let tc = crate::render::spec_token_count(evs);
            if spec_is_codeblock_group(events_view(events@)) && crate::render::render_ok(
                Seq::empty(),
                evs,
                tc,
            ) {
                (groups_view(r.0@)[0] matches GroupS::Translate { .. }) <==> has_quote_or_dslash(
                    crate::render::trim_leading_newlines(
                        crate::render::rendered_after(Seq::empty(), evs, tc),
                    ),
                )
            } else {
                groups_view(r.0@)[0] matches GroupS::Translate { .. }
            }
        }),
        groups_view(r.0@)[0] matches GroupS::Translate { comment: c, events: _ } ==> (c
            == comment@ && r.1@ == Seq::<char>::empty()),
        groups_view(r.0@)[0] is Skip ==> r.1@ == comment@,
{
    let is_translate = if is_codeblock_group(events) {
        match crate::render::reconstruct_markdown(events, None) {
            Ok(p) => exec_has_quote_or_dslash(p.0.as_str()),
            Err(_) => true,
        }
    } else {
        true
    };
    let evs = clone_range(events, 0, events.len());
    proof {
        assert(events_view(events@).subrange(0, events@.len() as int) =~= events_view(events@));
    }
    let mut out: Vec<Group> = Vec::new();
    let (g, remaining) = if is_translate {
        (Group::Translate { events: evs, comment }, String::new())
    } else {
        (Group::Skip(evs), comment)
    };
    proof {
        assert(group_events_of(g@) == events_view(events@));
    }
    out.push(g);
    proof {
        assert(groups_view(out@) =~= Seq::<GroupS>::empty().push(g@));
        lemma_flatten_groups_push(Seq::<GroupS>::empty(), g@);
        assert(flatten_groups(groups_view(out@)) =~= events_view(events@));
        lemma_splits_refl(bare_events(events_view(events@)));
    }
    (out, remaining)
}

/// Partition one code block group into finer groups: with a known
/// fenced language each text line is tokenized and only strings and
/// comments are kept translatable; otherwise the whole block is
/// classified heuristically.  The pending translator comment is
/// attached to the first translatable sub-group that is emitted;
/// the returned string is the comment when no sub-group took it,
/// and empty once one did.
fn parse_codeblock(events: &Vec<(usize, MdEvent)>, comment: String) -> (r: (Vec<Group>, String))
    ensures
        splits_of(
            bare_events(events_view(events@)),
            bare_events(flatten_groups(groups_view(r.0@))),
        ),
        r.1@ == comment@ || r.1@ == Seq::<char>::empty(),
{
    let ss = crate::syntax::load_syntax_set();
    let syntax_found = if events.len() > 0 {
        match &events[0].1 {
            MdEvent::Start(MdTag::CodeBlock(crate::events::MdCodeBlockKind::Fenced(info))) => {
                let token = first_comma_token(info);
                crate::syntax::find_syntax_by_token(&ss, token.as_str())
            },
            _ => None,
        }
    } else {
        None
    };
    let syntax = match syntax_found {
        Some(syntax) => syntax,
        None => {
            return heuristic_codeblock(events, comment);
        },
    };
    let mut ps = crate::syntax::parse_state_new(syntax);
    let mut ret: Vec<Group> = Vec::new();
    let ghost pc0 = comment@;
    let mut comment = comment;
    let mut used = false;
    let ghost ievs = bare_events(events_view(events@));
    let ghost mut parts: Seq<Seq<MdEventS>> = Seq::empty();
    let mut idx: usize = 0;
    proof {
        assert(flatten_groups(groups_view(ret@)) =~= Seq::<(usize, MdEventS)>::empty());
        assert(bare_events(flatten_groups(groups_view(ret@))) =~= parts.flatten());
    }
    while idx < events.len()
        invariant
            0 <= idx <= events@.len(),
            ievs == bare_events(events_view(events@)),
            parts.len() == idx,
            bare_events(flatten_groups(groups_view(ret@))) == parts.flatten(),
            forall|i: int| 0 <= i < idx ==> expands_event(#[trigger] parts[i], ievs[i]),
            comment@ == pc0 || comment@ == Seq::<char>::empty(),
        decreases events@.len() - idx,
    {
        let ghost ret0 = groups_view(ret@);
        proof {
            assert(ievs[idx as int] == events_view(events@)[idx as int].1);
            assert(events_view(events@)[idx as int] == pos_event_view(events@[idx as int]));
        }
        match &events[idx].1 {
            MdEvent::Text(text) => {
                let line: usize = events[idx].0;
                let c0 = comment;
                let (mut sub, c2, u2) = tokenize_text_event(&mut ps, &ss, line, text, c0, used);
                comment = c2;
                used = u2;
                let ghost part = bare_events(flatten_groups(groups_view(sub@)));
                let ghost subv = groups_view(sub@);
                ret.append(&mut sub);
                proof {
                    assert(groups_view(ret@) =~= ret0 + subv);
                    lemma_flatten_groups_concat(ret0, subv);
                    lemma_bare_concat(flatten_groups(ret0), flatten_groups(subv));
                    lemma_parts_push(parts, part);
                    assert(expands_event(part, ievs[idx as int]));
                    parts = parts.push(part);
                    assert(bare_events(flatten_groups(groups_view(ret@))) =~= parts.flatten());
                }
            },
            _ => {
                let mut single: Vec<(usize, MdEvent)> = Vec::new();
                let lineno: usize = events[idx].0;
                let ev = events[idx].1.clone();
                let ghost gev = (lineno, ev);
                single.push((lineno, ev));
                let g = Group::Skip(single);
                proof {
                    assert(group_events_of(g@) =~= seq![pos_event_view(gev)]);
                    lemma_groups_view_push(ret@, g);
                    lemma_flatten_groups_push(groups_view(ret@), g@);
                }
                ret.push(g);
                proof {
                    let ghost part = seq![ievs[idx as int]];
                    lemma_parts_push(parts, part);
                    assert(pos_event_view(gev).1 == ievs[idx as int]);
                    assert(bare_events(flatten_groups(ret0) + seq![pos_event_view(gev)]) =~=
                        bare_events(flatten_groups(ret0)) + seq![ievs[idx as int]]);
                    assert(expands_event(part, ievs[idx as int])) by {
                        if ievs[idx as int] is Text {
                            assert(part.drop_last() =~= Seq::<MdEventS>::empty());
                            assert(texts_concat(part) =~= ievs[idx as int]->Text_0);
                        }
                    }
                    parts = parts.push(part);
                    assert(bare_events(flatten_groups(groups_view(ret@))) =~= parts.flatten());
                }
            },
        }
        idx = idx + 1;
    }
    proof {
        assert(ievs.len() == events@.len());
        assert(splits_of(ievs, parts.flatten())) by {
            assert(parts.len() == ievs.len());
        }
    }
    (ret, comment)
}

fn merge_comment(pending: String, comment: String) -> (r: String)
    ensures
        pending@.len() == 0 ==> r@ == comment@,
        comment@.len() == 0 ==> r@ == pending@,
        pending@.len() > 0 && comment@.len() > 0 ==> r@ == pending@ + seq![' '] + comment@,
{
    if pending.as_str().unicode_len() == 0 {
        comment
    } else if comment.as_str().unicode_len() == 0 {
        pending
    } else {
        let mut r = pending;
        r.append(" ");
        proof {
            reveal_strlit(" ");
            assert(" "@ =~= seq![' ']);
        }
        r.append(comment.as_str());
        r
    }
}

/// If an event of a group's run opens a code block, one does in the
/// whole stream.
pub proof fn lemma_flatten_member(gs: Seq<GroupS>, j: int, k: int)
    requires
        0 <= j < gs.len(),
        0 <= k < group_events_of(gs[j]).len(),
    ensures
        exists|m: int|
            0 <= m < flatten_groups(gs).len() && flatten_groups(gs)[m] == group_events_of(
                gs[j],
            )[k],
    decreases gs.len(),
{
    if j == gs.len() - 1 {
        let m = flatten_groups(gs.drop_last()).len() + k;
        assert(flatten_groups(gs)[m] == group_events_of(gs[j])[k]);
    } else {
        lemma_flatten_member(gs.drop_last(), j, k);
        let m0 = choose|m: int|
            0 <= m < flatten_groups(gs.drop_last()).len() && flatten_groups(gs.drop_last())[m]
                == group_events_of(gs.drop_last()[j])[k];
        assert(flatten_groups(gs)[m0] == group_events_of(gs[j])[k]);
    }
}

/// Group Markdown events into translatable and skipped groups.
///
/// The input is partitioned: concatenating the events of all groups,
/// in order, yields the input stream exactly whenever no code block
/// stands in it.  Inside code blocks a text event may be split into
/// adjacent text events that together carry the same characters, so
/// in general the output is an expansion of the input in the sense
/// of [`splits_of`].  Without code blocks the groups are exactly
/// those of the grouping model, so
/// [`lemma_skip_directive_locality`] applies to them.
pub fn group_events(events: &Vec<(usize, MdEvent)>) -> (groups: Vec<Group>)
    ensures
        splits_of(
            bare_events(events_view(events@)),
            bare_events(flatten_groups(groups_view(groups@))),
        ),
        !has_code_block(events_view(events@)) ==> flatten_groups(groups_view(groups@))
            == events_view(events@),
        !has_code_block(events_view(events@)) ==> groups_view(groups@) == model_groups(
            events_view(events@),
            0,
            0,
            false,
            false,
            Seq::empty(),
        ),
{
    let mut raw = raw_groups(events);
    let ghost orig = groups_view(raw@);
    let ghost evs = events_view(events@);
    let mut out: Vec<Group> = Vec::new();
    let mut pending: String = String::new();
    let ghost total = orig.len();
    let ghost mut k: int = 0;
    proof {
        assert(orig.take(0) =~= Seq::<GroupS>::empty());
        assert(flatten_groups(orig.take(0)) =~= Seq::<(usize, MdEventS)>::empty());
        assert(bare_events(flatten_groups(orig.take(0))) =~= Seq::<MdEventS>::empty());
        assert(bare_events(flatten_groups(groups_view(out@))) =~= Seq::<MdEventS>::empty());
        lemma_splits_refl(Seq::<MdEventS>::empty());
        assert(groups_view(raw@) =~= orig.skip(0));
    }
    while raw.len() > 0
        invariant
            0 <= k <= total == orig.len(),
            k + raw@.len() == total,
            flatten_groups(orig) == events_view(events@),
            evs == events_view(events@),
            groups_view(raw@) == orig.skip(k),
            splits_of(
                bare_events(flatten_groups(orig.take(k))),
                bare_events(flatten_groups(groups_view(out@))),
            ),
            orig == model_groups(evs, 0, 0, false, false, Seq::empty()),
            !has_code_block(evs) ==> flatten_groups(groups_view(out@)) == flatten_groups(
                orig.take(k),
            ) && pending@.len() == 0 && groups_view(out@) == orig.take(k),
        decreases raw@.len(),
    {
        let ghost out0 = groups_view(out@);
        let ghost done = bare_events(flatten_groups(orig.take(k)));
        let ghost cur = orig[k];
        let ghost old_raw = raw@;
        let g = raw.remove(0);
        proof {
            assert(groups_view(old_raw)[0] == old_raw[0]@);
            assert(g@ == orig.skip(k)[0]);
            assert(orig.skip(k)[0] == orig[k]);
            assert(raw@ =~= old_raw.skip(1));
            assert forall|j: int| 0 <= j < raw@.len() implies groups_view(raw@)[j] == orig.skip(
                k + 1,
            )[j] by {
                assert(groups_view(raw@)[j] == raw@[j]@);
                assert(raw@[j] == old_raw[j + 1]);
                assert(groups_view(old_raw)[j + 1] == old_raw[j + 1]@);
                assert(groups_view(old_raw)[j + 1] == orig.skip(k)[j + 1]);
                assert(orig.skip(k)[j + 1] == orig.skip(k + 1)[j]);
            }
            assert(groups_view(raw@) =~= orig.skip(k + 1));
            assert(orig.take(k + 1) =~= orig.take(k).push(cur));
            lemma_flatten_groups_push(orig.take(k), cur);
            lemma_bare_concat(flatten_groups(orig.take(k)), group_events_of(cur));
        }
        match g {
            Group::Skip(evs_g) => {
                let g2 = Group::Skip(evs_g);
                proof {
                    assert(group_events_of(g2@) == group_events_of(cur));
                    lemma_groups_view_push(out@, g2);
                    lemma_flatten_groups_push(groups_view(out@), g2@);
                }
                out.push(g2);
                proof {
                    lemma_bare_concat(flatten_groups(out0), group_events_of(cur));
                    lemma_splits_refl(bare_events(group_events_of(cur)));
                    lemma_splits_concat(
                        done,
                        bare_events(flatten_groups(out0)),
                        bare_events(group_events_of(cur)),
                        bare_events(group_events_of(cur)),
                    );
                    if !has_code_block(evs) {
                        assert(g2@ == cur);
                        assert(groups_view(out@) =~= out0.push(cur));
                        assert(out0.push(cur) =~= orig.take(k + 1));
                    }
                }
            },
            Group::Translate { events: evs_g, comment } => {
                let ghost gcomment = comment@;
                let ghost gpending = pending@;
                let merged = merge_comment(pending, comment);
                if is_codeblock_group(&evs_g) {
                    proof {
                        assert(group_events_of(cur)[0].1 matches MdEventS::Start(
                            MdTagS::CodeBlock(_),
                        ));
                        lemma_flatten_member(orig, k, 0);
                        assert(has_code_block(evs));
                    }
                    let (mut sub, rest) = parse_codeblock(&evs_g, merged);
                    pending = rest;
                    let ghost subv = groups_view(sub@);
                    out.append(&mut sub);
                    proof {
                        assert(groups_view(out@) =~= out0 + subv);
                        lemma_flatten_groups_concat(out0, subv);
                        lemma_bare_concat(flatten_groups(out0), flatten_groups(subv));
                        lemma_splits_concat(
                            done,
                            bare_events(flatten_groups(out0)),
                            bare_events(group_events_of(cur)),
                            bare_events(flatten_groups(subv)),
                        );
                    }
                } else {
                    let ghost gmerged = merged@;
                    let g2 = Group::Translate { events: evs_g, comment: merged };
                    pending = String::new();
                    proof {
                        assert(group_events_of(g2@) == group_events_of(cur));
                        lemma_groups_view_push(out@, g2);
                        lemma_flatten_groups_push(groups_view(out@), g2@);
                    }
                    out.push(g2);
                    proof {
                        lemma_bare_concat(flatten_groups(out0), group_events_of(cur));
                        lemma_splits_refl(bare_events(group_events_of(cur)));
                        lemma_splits_concat(
                            done,
                            bare_events(flatten_groups(out0)),
                            bare_events(group_events_of(cur)),
                            bare_events(group_events_of(cur)),
                        );
                        if !has_code_block(evs) {
                            assert(gpending.len() == 0);
                            assert(gmerged == gcomment);
                            assert(g2@ == cur);
                            assert(groups_view(out@) =~= out0.push(cur));
                            assert(out0.push(cur) =~= orig.take(k + 1));
                        }
                    }
                }
            },
        }
        proof {
            k = k + 1;
        }
    }
    proof {
        assert(orig.take(k) =~= orig);
    }
    out
}

/// Whether an event opens a translatable block: a paragraph or a
/// code block.
pub open spec fn begins_translate_block(e: MdEventS) -> bool {
    e == MdEventS::Start(MdTagS::Paragraph) || e matches MdEventS::Start(MdTagS::CodeBlock(_))
}

/// Whether an event closes a translatable block.
pub open spec fn ends_translate_block(e: MdEventS) -> bool {
    e == MdEventS::End(MdTagEnd::Paragraph) || e == MdEventS::End(MdTagEnd::CodeBlock)
}

/// Whether an event starts or continues a translatable run.
pub open spec fn is_inline_event(e: MdEventS) -> bool {
    ||| e == MdEventS::Start(MdTagS::Emphasis)
    ||| e == MdEventS::Start(MdTagS::Strong)
    ||| e == MdEventS::Start(MdTagS::Strikethrough)
    ||| e matches MdEventS::Start(MdTagS::Link { .. })
    ||| e matches MdEventS::Start(MdTagS::Image { .. })
    ||| e == MdEventS::End(MdTagEnd::Emphasis)
    ||| e == MdEventS::End(MdTagEnd::Strong)
    ||| e == MdEventS::End(MdTagEnd::Strikethrough)
    ||| e == MdEventS::End(MdTagEnd::Link)
    ||| e == MdEventS::End(MdTagEnd::Image)
    ||| e matches MdEventS::Text(_)
    ||| e matches MdEventS::Code(_)
    ||| e matches MdEventS::FootnoteReference(_)
    ||| e == MdEventS::SoftBreak
    ||| e == MdEventS::HardBreak
}

/// The directive an HTML event carries, if any.
pub open spec fn event_directive(e: MdEventS) -> Option<crate::directives::DirectiveS> {
    match e {
        MdEventS::Html(s) => crate::directives::spec_find_directive(s),
        MdEventS::InlineHtml(s) => crate::directives::spec_find_directive(s),
        _ => None,
    }
}

/// The group emitted for the run `[start, end)` together with the
/// skip flag and comments after the emission.
pub open spec fn model_emit(
    evs: Seq<(usize, MdEventS)>,
    start: int,
    end: int,
    translate: bool,
    skip_next: bool,
    comments: Seq<Seq<char>>,
) -> (GroupS, bool, Seq<Seq<char>>) {
    let run = evs.subrange(start, end);
    if translate && skip_next {
        (GroupS::Skip(run), false, comments)
    } else if translate {
        (GroupS::Translate { events: run, comment: spec_join_spaces(comments) }, skip_next, Seq::empty())
    } else {
        (GroupS::Skip(run), skip_next, comments)
    }
}

/// The groups that the grouping pass emits from position `idx` on,
/// with the run begun at `start`, before code blocks are looked
/// into.  This is the mathematical model of the pass; the exec pass
/// is proved against it.
pub open spec fn model_groups(
    evs: Seq<(usize, MdEventS)>,
    idx: int,
    start: int,
    translate: bool,
    skip_next: bool,
    comments: Seq<Seq<char>>,
) -> Seq<GroupS>
    decreases evs.len() - idx,
{
    if idx < 0 || idx >= evs.len() {
        let run = evs.subrange(start, evs.len() as int);
        if translate {
            seq![GroupS::Translate { events: run, comment: Seq::empty() }]
        } else {
            seq![GroupS::Skip(run)]
        }
    } else {
        let e = evs[idx].1;
        if begins_translate_block(e) {
            let emitted = model_emit(evs, start, idx, translate, skip_next, comments);
            seq![emitted.0] + model_groups(evs, idx + 1, idx, true, emitted.1, emitted.2)
        } else if ends_translate_block(e) {
            let emitted = model_emit(evs, start, idx + 1, translate, skip_next, comments);
            seq![emitted.0] + model_groups(evs, idx + 1, idx + 1, false, emitted.1, emitted.2)
        } else if e matches MdEventS::Html(_) || e matches MdEventS::InlineHtml(_) {
            model_groups_html(evs, idx, start, translate, skip_next, comments)
        } else if is_inline_event(e) {
            if !translate {
                let emitted = model_emit(evs, start, idx, false, skip_next, comments);
                seq![emitted.0] + model_groups(evs, idx + 1, idx, true, emitted.1, emitted.2)
            } else {
                model_groups(evs, idx + 1, start, true, skip_next, comments)
            }
        } else {
            if translate {
                let emitted = model_emit(evs, start, idx, true, skip_next, comments);
                seq![emitted.0] + model_groups(evs, idx + 1, idx, false, emitted.1, emitted.2)
            } else {
                model_groups(evs, idx + 1, start, false, skip_next, comments)
            }
        }
    }
}

/// The step of [`model_groups`] for an HTML event: a directive takes
/// effect, flushing a translatable run first; other block HTML ends
/// a translatable run, other inline HTML may begin one.
pub open spec fn model_groups_html(
    evs: Seq<(usize, MdEventS)>,
    idx: int,
    start: int,
    translate: bool,
    skip_next: bool,
    comments: Seq<Seq<char>>,
) -> Seq<GroupS>
    decreases evs.len() - idx, 1int,
    when 0 <= idx < evs.len()
{
    let e = evs[idx].1;
    match event_directive(e) {
        Some(crate::directives::DirectiveS::Skip) => {
            if translate {
                let emitted = model_emit(evs, start, idx, true, skip_next, comments);
                seq![emitted.0] + model_groups(evs, idx + 1, idx, true, true, emitted.2)
            } else {
                model_groups(evs, idx + 1, start, false, true, comments)
            }
        },
        Some(crate::directives::DirectiveS::Comment(txt)) => {
            if translate {
                let emitted = model_emit(evs, start, idx, true, skip_next, comments);
                seq![emitted.0] + model_groups(evs, idx + 1, idx, true, emitted.1, emitted.2.push(txt))
            } else {
                model_groups(evs, idx + 1, start, false, skip_next, comments.push(txt))
            }
        },
        None => {
            if e matches MdEventS::Html(_) {
                if translate {
                    let emitted = model_emit(evs, start, idx, true, skip_next, comments);
                    seq![emitted.0] + model_groups(evs, idx + 1, idx, false, emitted.1, emitted.2)
                } else {
                    model_groups(evs, idx + 1, start, false, skip_next, comments)
                }
            } else {
                if !translate {
                    let emitted = model_emit(evs, start, idx, false, skip_next, comments);
                    seq![emitted.0] + model_groups(evs, idx + 1, idx, true, emitted.1, emitted.2)
                } else {
                    model_groups(evs, idx + 1, start, true, skip_next, comments)
                }
            }
        },
    }
}

/// Whether no directive stands among the events from `idx` on.
pub open spec fn no_directives(evs: Seq<(usize, MdEventS)>, idx: int) -> bool {
    forall|k: int| idx <= k < evs.len() ==> (#[trigger] event_directive(evs[k].1)) is None
}

/// The position of the first translatable group, or the length when
/// there is none.
pub open spec fn first_translate(gs: Seq<GroupS>) -> int
    decreases gs.len(),
{
    if gs.len() == 0 {
        0
    } else if gs[0] matches GroupS::Translate { .. } {
        0
    } else {
        1 + first_translate(gs.drop_first())
    }
}

/// How a pending skip changes the groups: the first translatable
/// group — when one is emitted before the final group — is
/// reclassified as skipped with the same events, and nothing else
/// changes; when only the final group is translatable, nothing
/// changes at all.
pub open spec fn skip_reclassified(w: Seq<GroupS>, ws: Seq<GroupS>) -> bool {
    let m = first_translate(w);
    &&& (m < w.len() - 1 ==> ws == w.update(m, GroupS::Skip(group_events_of(w[m]))))
    &&& (m >= w.len() - 1 ==> ws == w)
}

proof fn lemma_first_translate_bounds(gs: Seq<GroupS>)
    ensures
        0 <= first_translate(gs) <= gs.len(),
        first_translate(gs) < gs.len() ==> gs[first_translate(gs)] matches GroupS::Translate { .. },
    decreases gs.len(),
{
    if gs.len() > 0 && !(gs[0] matches GroupS::Translate { .. }) {
        lemma_first_translate_bounds(gs.drop_first());
    }
}

proof fn lemma_model_nonempty(
    evs: Seq<(usize, MdEventS)>,
    idx: int,
    start: int,
    t: bool,
    f: bool,
    c: Seq<Seq<char>>,
)
    ensures
        model_groups(evs, idx, start, t, f, c).len() >= 1,
    decreases evs.len() - idx + 1,
{
    if 0 <= idx && idx < evs.len() {
        let e = evs[idx].1;
        if begins_translate_block(e) || ends_translate_block(e) {
        } else if e matches MdEventS::Html(_) || e matches MdEventS::InlineHtml(_) {
            lemma_model_unfold_html(evs, idx, start, t, f, c);
            match event_directive(e) {
                Some(crate::directives::DirectiveS::Skip) => {
                    if !t {
                        lemma_model_nonempty(evs, idx + 1, start, false, true, c);
                    }
                },
                Some(crate::directives::DirectiveS::Comment(txt)) => {
                    if !t {
                        lemma_model_nonempty(evs, idx + 1, start, false, f, c.push(txt));
                    }
                },
                None => {
                    if e matches MdEventS::Html(_) {
                        if !t {
                            lemma_model_nonempty(evs, idx + 1, start, false, f, c);
                        }
                    } else {
                        if t {
                            lemma_model_nonempty(evs, idx + 1, start, true, f, c);
                        }
                    }
                },
            }
        } else if is_inline_event(e) {
            if t {
                lemma_model_nonempty(evs, idx + 1, start, true, f, c);
            }
        } else {
            if !t {
                lemma_model_nonempty(evs, idx + 1, start, false, f, c);
            }
        }
    }
}

/// A translatable run emitted at the head resolves the pending skip
/// on the spot.
proof fn lemma_reclassify_head(run: Seq<(usize, MdEventS)>, rest: Seq<GroupS>, comment: Seq<char>)
    requires
        rest.len() >= 1,
    ensures
        skip_reclassified(
            seq![GroupS::Translate { events: run, comment }] + rest,
            seq![GroupS::Skip(run)] + rest,
        ),
{
    let w = seq![GroupS::Translate { events: run, comment }] + rest;
    let ws = seq![GroupS::Skip(run)] + rest;
    assert(w[0] matches GroupS::Translate { .. });
    assert(first_translate(w) == 0);
    assert(group_events_of(w[0]) == run);
    assert(ws =~= w.update(0, GroupS::Skip(run)));
}

/// A common leading group lifts the reclassification relation.
proof fn lemma_reclassify_lift(g: GroupS, w: Seq<GroupS>, ws: Seq<GroupS>)
    requires
        !(g matches GroupS::Translate { .. }),
        skip_reclassified(w, ws),
        w.len() >= 1,
    ensures
        skip_reclassified(seq![g] + w, seq![g] + ws),
{
    lemma_first_translate_bounds(w);
    let m = first_translate(w);
    assert((seq![g] + w).drop_first() =~= w);
    assert(first_translate(seq![g] + w) == 1 + m);
    if m < w.len() - 1 {
        assert(seq![g] + ws =~= (seq![g] + w).update(1 + m, GroupS::Skip(group_events_of(w[m]))));
        assert((seq![g] + w)[1 + m] == w[m]);
    } else {
        assert(seq![g] + ws =~= seq![g] + w);
    }
}

/// A pending skip suppresses exactly the next translatable group.
///
/// With no further directives among the remaining events and no
/// pending comments, running the grouping with the skip flag set
/// yields the groups of the run without it, with exactly its first
/// translatable group — when one is emitted before the end of the
/// input — reclassified as skipped; later groups are unaffected, and
/// the final group never consumes the flag.
pub proof fn lemma_skip_directive_locality(
    evs: Seq<(usize, MdEventS)>,
    idx: int,
    start: int,
    translate: bool,
)
    requires
        idx <= evs.len(),
        no_directives(evs, idx),
    ensures
        skip_reclassified(
            model_groups(evs, idx, start, translate, false, Seq::empty()),
            model_groups(evs, idx, start, translate, true, Seq::empty()),
        ),
    decreases evs.len() - idx + 1,
{
    let c: Seq<Seq<char>> = Seq::empty();
    let w = model_groups(evs, idx, start, translate, false, c);
    let ws = model_groups(evs, idx, start, translate, true, c);
    if idx < 0 || idx >= evs.len() {
        assert(ws == w);
        lemma_first_translate_bounds(w);
        assert(w.len() == 1);
    } else {
        let e = evs[idx].1;
        assert(event_directive(e) is None);
        if begins_translate_block(e) {
            if translate {
                lemma_model_nonempty(evs, idx + 1, idx, true, false, c);
                assert(spec_join_spaces(c) =~= Seq::<char>::empty());
                lemma_reclassify_head(
                    evs.subrange(start, idx),
                    model_groups(evs, idx + 1, idx, true, false, c),
                    spec_join_spaces(c),
                );
            } else {
                lemma_skip_directive_locality(evs, idx + 1, idx, true);
                lemma_model_nonempty(evs, idx + 1, idx, true, false, c);
                lemma_reclassify_lift(
                    GroupS::Skip(evs.subrange(start, idx)),
                    model_groups(evs, idx + 1, idx, true, false, c),
                    model_groups(evs, idx + 1, idx, true, true, c),
                );
            }
        } else if ends_translate_block(e) {
            if translate {
                lemma_model_nonempty(evs, idx + 1, idx + 1, false, false, c);
                assert(spec_join_spaces(c) =~= Seq::<char>::empty());
                lemma_reclassify_head(
                    evs.subrange(start, idx + 1),
                    model_groups(evs, idx + 1, idx + 1, false, false, c),
                    spec_join_spaces(c),
                );
            } else {
                lemma_skip_directive_locality(evs, idx + 1, idx + 1, false);
                lemma_model_nonempty(evs, idx + 1, idx + 1, false, false, c);
                lemma_reclassify_lift(
                    GroupS::Skip(evs.subrange(start, idx + 1)),
                    model_groups(evs, idx + 1, idx + 1, false, false, c),
                    model_groups(evs, idx + 1, idx + 1, false, true, c),
                );
            }
        } else if e matches MdEventS::Html(_) || e matches MdEventS::InlineHtml(_) {
            lemma_model_unfold_html(evs, idx, start, translate, false, c);
            lemma_model_unfold_html(evs, idx, start, translate, true, c);
            if e matches MdEventS::Html(_) {
                if translate {
                    lemma_model_nonempty(evs, idx + 1, idx, false, false, c);
                    assert(spec_join_spaces(c) =~= Seq::<char>::empty());
                    lemma_reclassify_head(
                        evs.subrange(start, idx),
                        model_groups(evs, idx + 1, idx, false, false, c),
                        spec_join_spaces(c),
                    );
                } else {
                    lemma_skip_directive_locality(evs, idx + 1, start, false);
                }
            } else {
                if !translate {
                    lemma_skip_directive_locality(evs, idx + 1, idx, true);
                    lemma_model_nonempty(evs, idx + 1, idx, true, false, c);
                    lemma_reclassify_lift(
                        GroupS::Skip(evs.subrange(start, idx)),
                        model_groups(evs, idx + 1, idx, true, false, c),
                        model_groups(evs, idx + 1, idx, true, true, c),
                    );
                } else {
                    lemma_skip_directive_locality(evs, idx + 1, start, true);
                }
            }
        } else if is_inline_event(e) {
            if !translate {
                lemma_skip_directive_locality(evs, idx + 1, idx, true);
                lemma_model_nonempty(evs, idx + 1, idx, true, false, c);
                lemma_reclassify_lift(
                    GroupS::Skip(evs.subrange(start, idx)),
                    model_groups(evs, idx + 1, idx, true, false, c),
                    model_groups(evs, idx + 1, idx, true, true, c),
                );
            } else {
                lemma_skip_directive_locality(evs, idx + 1, start, true);
            }
        } else {
            if translate {
                lemma_model_nonempty(evs, idx + 1, idx, false, false, c);
                assert(spec_join_spaces(c) =~= Seq::<char>::empty());
                lemma_reclassify_head(
                    evs.subrange(start, idx),
                    model_groups(evs, idx + 1, idx, false, false, c),
                    spec_join_spaces(c),
                );
            } else {
                lemma_skip_directive_locality(evs, idx + 1, start, false);
            }
        }
    }
}

} // verus!
