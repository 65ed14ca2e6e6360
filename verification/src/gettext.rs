//! Translating documents and books with a catalog.

use vstd::prelude::*;
use vstd::string::StrSliceExecFns;
use vstd::string::StringExecFns;

use crate::catalog::{Catalog, Message, catalog_wf};
use crate::events::{MdEvent, MdEventS, events_view, bare_events};
use crate::groups::has_code_block;
use crate::messages::translate_events;
use crate::parse::{extract_events, extracted_events_of, extraction_of};
use crate::render::{ReconstructError, reconstruct_markdown, rendered_after, spec_token_count,
    trim_leading_newlines};
use crate::text::str_chars;

verus! {

/// What one formatting-stripping step keeps of an event: text and
/// inline code keep their characters, a soft break keeps one space,
/// everything else nothing.
pub open spec fn strip_kept(e: MdEventS) -> Seq<char> {
    match e {
        MdEventS::Text(t) => t,
        MdEventS::Code(t) => t,
        MdEventS::SoftBreak => seq![' '],
        _ => Seq::empty(),
    }
}

/// The concatenation of what stripping keeps of each event.
pub open spec fn strip_fold(evs: Seq<MdEventS>) -> Seq<char>
    decreases evs.len(),
{
    if evs.len() == 0 {
        Seq::empty()
    } else {
        strip_fold(evs.drop_last()) + strip_kept(evs.last())
    }
}

/// Strip formatting from a Markdown string: only the plain text,
/// inline code and spaces of its events remain.
pub fn strip_formatting(text: &str) -> (r: String)
    ensures
        r@ == strip_fold(bare_events(extracted_events_of(text))),
{
    let events = extract_events(text, None);
    let ghost bev = bare_events(extracted_events_of(text));
    let mut out = String::new();
    let mut i: usize = 0;
    proof {
        assert(bev.take(0) =~= Seq::<MdEventS>::empty());
    }
    while i < events.len()
        invariant
            0 <= i <= events@.len(),
            bev == bare_events(events_view(events@)),
            out@ == strip_fold(bev.take(i as int)),
        decreases events@.len() - i,
    {
        proof {
            assert(bev.take(i + 1).drop_last() =~= bev.take(i as int));
            assert(bev.take(i + 1).last() == bev[i as int]);
            assert(bev[i as int] == events_view(events@)[i as int].1);
            assert(events_view(events@)[i as int] == crate::events::pos_event_view(
                events@[i as int],
            ));
        }
        match &events[i].1 {
            MdEvent::Text(t) => {
                out.append(t.as_str());
            },
            MdEvent::Code(t) => {
                out.append(t.as_str());
            },
            MdEvent::SoftBreak => {
                out.append(" ");
                proof {
                    reveal_strlit(" ");
                    assert(" "@ =~= seq![' ']);
                }
            },
            _ => {},
        }
        i = i + 1;
    }
    proof {
        assert(bev.take(events@.len() as int) =~= bev);
    }
    out
}

/// The pinned result of translating one code-block-free document
/// with the given catalog messages: the spliced events rendered back
/// to Markdown, or nothing when the splice or the serializer fails.
pub open spec fn spec_translated(doc: Seq<char>, msgs: Seq<Message>) -> Option<Seq<char>> {
    let gs = crate::groups::model_groups(extraction_of(doc), 0, 0, false, false, Seq::empty());
    match crate::messages::spec_spliced(gs, 0, Seq::empty(), msgs) {
        None => None,
        Some(out) => {
            let outb = bare_events(out);
            if crate::render::render_ok(Seq::empty(), outb, spec_token_count(outb)) {
                Some(
                    trim_leading_newlines(
                        rendered_after(Seq::empty(), outb, spec_token_count(outb)),
                    ),
                )
            } else {
                None
            }
        },
    }
}

/// Translate one Markdown document using `catalog`.
///
/// Each translatable group whose rendered text has a translated,
/// not fuzzy catalog entry is replaced by the entry's msgstr; the
/// spliced events are rendered back to Markdown.  For documents
/// without code blocks the result is pinned exactly: the spliced
/// events are [`spec_spliced`](crate::messages::spec_spliced) over
/// the grouping model, and the output is their reconstruction.
/// With an empty catalog that reconstruction is of the document's
/// own events.
pub fn translate(text: &str, catalog: &Catalog) -> (r: Result<String, ReconstructError>)
    ensures
        catalog.messages@.len() == 0 && !has_code_block(extracted_events_of(text)) ==> (
        r matches Ok(out) ==> out@ == trim_leading_newlines(
            rendered_after(
                Seq::empty(),
                bare_events(extracted_events_of(text)),
                spec_token_count(bare_events(extracted_events_of(text))),
            ),
        )),
        !has_code_block(extraction_of(text@)) ==> (match spec_translated(
            text@,
            catalog.messages@,
        ) {
            Some(t) => r matches Ok(s) && s@ == t,
            None => r is Err,
        }),
{
    let events = extract_events(text, None);
    let ghost hyp = !has_code_block(extraction_of(text@));
    proof {
        assert(events_view(events@) == extraction_of(text@));
    }
    let translated = match translate_events(&events, catalog) {
        Ok(t) => t,
        Err(e) => {
            return Err(e);
        },
    };
    match reconstruct_markdown(&translated, None) {
        Ok(p) => {
            proof {
                assert(crate::render::opt_state_events(None) =~= Seq::<MdEventS>::empty());
                if catalog.messages@.len() == 0 && !has_code_block(extracted_events_of(text)) {
                    assert(events_view(translated@) == events_view(events@));
                }
            }
            Ok(p.0)
        },
        Err(e) => Err(e),
    }
}

/// Whether `needle` occurs in `hay`.
pub open spec fn contains_sub(hay: Seq<char>, needle: Seq<char>) -> bool {
    exists|i: int|
        0 <= i && i + needle.len() <= hay.len() && #[trigger] hay.subrange(i, i + needle.len())
            == needle
}

fn match_at(chars: &Vec<char>, needle: &Vec<char>, start: usize) -> (r: bool)
    requires
        start + needle@.len() <= chars@.len(),
    ensures
        r == (chars@.subrange(start as int, start + needle@.len()) == needle@),
{
    let n: usize = chars.len();
    let mut k: usize = 0;
    while k < needle.len()
        invariant
            0 <= k <= needle@.len(),
            n == chars@.len(),
            start + needle@.len() <= chars@.len(),
            forall|m: int| 0 <= m < k ==> chars@[start + m] == needle@[m],
        decreases needle@.len() - k,
    {
        if chars[start + k] != needle[k] {
            proof {
                assert(chars@.subrange(start as int, start + needle@.len())[k as int]
                    != needle@[k as int]);
            }
            return false;
        }
        k = k + 1;
    }
    proof {
        assert(chars@.subrange(start as int, start + needle@.len()) =~= needle@);
    }
    true
}

fn exec_contains_sub(hay: &str, needle: &Vec<char>) -> (r: bool)
    ensures
        r == contains_sub(hay@, needle@),
{
    let chars = str_chars(hay);
    if needle.len() > chars.len() {
        proof {
            assert(!contains_sub(hay@, needle@)) by {
                if contains_sub(hay@, needle@) {
                    let i = choose|i: int|
                        0 <= i && i + needle@.len() <= hay@.len() && #[trigger] hay@.subrange(
                            i,
                            i + needle@.len(),
                        ) == needle@;
                }
            }
        }
        return false;
    }
    if needle.len() == 0 {
        proof {
            assert(contains_sub(hay@, needle@)) by {
                assert(hay@.subrange(0, 0 + needle@.len() as int) =~= needle@);
            }
        }
        return true;
    }
    let chars_len: usize = chars.len();
    let needle_len: usize = needle.len();
    let mut start: usize = 0;
    let last = chars_len - needle_len;
    while start <= last
        invariant
            0 <= start <= last + 1,
            chars_len == chars@.len(),
            needle_len == needle@.len(),
            needle_len >= 1,
            last == chars@.len() - needle@.len(),
            chars@ == hay@,
            needle@.len() <= chars@.len(),
            forall|i: int|
                0 <= i < start ==> #[trigger] hay@.subrange(i, i + needle@.len()) != needle@,
        decreases last - start + 1,
    {
        if match_at(&chars, needle, start) {
            return true;
        }
        start = start + 1;
    }
    proof {
        assert(!contains_sub(hay@, needle@)) by {
            if contains_sub(hay@, needle@) {
                let i = choose|i: int|
                    0 <= i && i + needle@.len() <= hay@.len() && #[trigger] hay@.subrange(
                        i,
                        i + needle@.len(),
                    ) == needle@;
                assert(i < start);
            }
        }
    }
    false
}

/// The formatting-stripped text of a document: what remains of its
/// events after stripping.
pub open spec fn stripped_of(s: Seq<char>) -> Seq<char> {
    strip_fold(bare_events(extraction_of(s)))
}

/// The stripped duplicates the summary pass collects: one pair of
/// stripped msgid and msgstr for every message whose source names
/// `SUMMARY.md`, in catalog order.
pub open spec fn spec_stripped_list(
    msgs: Seq<(Seq<char>, Seq<char>, Seq<char>, Seq<char>, bool)>,
    i: int,
) -> Seq<(Seq<char>, Seq<char>)>
    decreases msgs.len() - i,
{
    if i < 0 || i >= msgs.len() {
        Seq::empty()
    } else {
        (if contains_sub(msgs[i].2, "SUMMARY.md"@) {
            seq![(stripped_of(msgs[i].0), stripped_of(msgs[i].1))]
        } else {
            Seq::empty()
        }) + spec_stripped_list(msgs, i + 1)
    }
}

/// The catalog views after appending the stripped pairs in order,
/// each as an untranslated-fields message.
pub open spec fn spec_apply_stripped(
    cur: Seq<(Seq<char>, Seq<char>, Seq<char>, Seq<char>, bool)>,
    adds: Seq<(Seq<char>, Seq<char>)>,
    j: int,
) -> Seq<(Seq<char>, Seq<char>, Seq<char>, Seq<char>, bool)>
    decreases adds.len() - j,
{
    if j < 0 || j >= adds.len() {
        cur
    } else {
        spec_apply_stripped(
            crate::catalog::spec_apply_append(
            cur,
            (adds[j].0, adds[j].1, Seq::empty(), Seq::empty(), false),
        ),
            adds,
            j + 1,
        )
    }
}

/// Update `catalog` with stripped messages from the summary.
///
/// The book chrome shows chapter names with their formatting
/// stripped, so for every message whose source names `SUMMARY.md` a
/// stripped duplicate of msgid and msgstr is appended, letting
/// lookups by the plain label succeed.  The result is pinned
/// exactly: the old entries followed, in order, by one
/// append-or-update per stripped pair.
pub fn add_stripped_summary_translations(catalog: &mut Catalog)
    requires
        catalog_wf(*old(catalog)),
    ensures
        catalog_wf(*final(catalog)),
        final(catalog).metadata == old(catalog).metadata,
        crate::catalog::msgs_view(final(catalog).messages@) == spec_apply_stripped(
            crate::catalog::msgs_view(old(catalog).messages@),
            spec_stripped_list(crate::catalog::msgs_view(old(catalog).messages@), 0),
            0,
        ),
{
    let ghost pre = crate::catalog::msgs_view(catalog.messages@);
    let ghost adds = spec_stripped_list(pre, 0);
    let needle: Vec<char> = vec!['S', 'U', 'M', 'M', 'A', 'R', 'Y', '.', 'm', 'd'];
    proof {
        reveal_strlit("SUMMARY.md");
        assert(needle@ =~= "SUMMARY.md"@);
    }
    let mut stripped: Vec<Message> = Vec::new();
    let ghost stripped_view = Seq::<(Seq<char>, Seq<char>)>::empty();
    let mut i: usize = 0;
    proof {
        assert(stripped@.map_values(|m: Message| (m.msgid@, m.msgstr@))
            + spec_stripped_list(pre, 0) =~= adds);
    }
    while i < catalog.messages.len()
        invariant
            0 <= i <= catalog.messages@.len(),
            catalog_wf(*catalog),
            *catalog == *old(catalog),
            needle@ == "SUMMARY.md"@,
            pre == crate::catalog::msgs_view(catalog.messages@),
            adds == spec_stripped_list(pre, 0),
            adds == stripped@.map_values(|m: Message| (m.msgid@, m.msgstr@))
                + spec_stripped_list(pre, i as int),
            forall|j: int|
                0 <= j < stripped@.len() ==> (#[trigger] stripped@[j]).source@.len() == 0
                    && stripped@[j].comments@.len() == 0 && !crate::catalog::spec_is_fuzzy(
                    crate::catalog::flags_view(stripped@[j].flags),
                ),
        decreases catalog.messages@.len() - i,
    {
        let ghost sv0 = stripped@.map_values(|m: Message| (m.msgid@, m.msgstr@));
        proof {
            assert(pre[i as int] == crate::catalog::msg_view(catalog.messages@[i as int]));
        }
        if exec_contains_sub(catalog.messages[i].source.as_str(), &needle) {
            let msgid = strip_formatting(catalog.messages[i].msgid.as_str());
            let msgstr = strip_formatting(catalog.messages[i].msgstr.as_str());
            let message = Message::build_singular().with_msgid(msgid).with_msgstr(msgstr).done();
            let ghost gm = message;
            stripped.push(message);
            proof {
                assert(!crate::catalog::spec_is_fuzzy(crate::catalog::flags_view(gm.flags)))
                    by {
                    if crate::catalog::spec_is_fuzzy(crate::catalog::flags_view(gm.flags)) {
                        let ix = choose|ix: int|
                            0 <= ix < crate::catalog::flags_view(gm.flags).len()
                                && crate::catalog::flags_view(gm.flags)[ix] == "fuzzy"@;
                    }
                }
                assert(stripped@.map_values(|m: Message| (m.msgid@, m.msgstr@)) =~= sv0.push(
                    (stripped_of(pre[i as int].0), stripped_of(pre[i as int].1)),
                ));
                assert(sv0 + (seq![(stripped_of(pre[i as int].0), stripped_of(pre[i as int].1))]
                    + spec_stripped_list(pre, i + 1)) =~= sv0.push(
                    (stripped_of(pre[i as int].0), stripped_of(pre[i as int].1)),
                ) + spec_stripped_list(pre, i + 1));
            }
        }
        i = i + 1;
    }
    proof {
        assert(spec_stripped_list(pre, pre.len() as int) =~= Seq::<(Seq<char>, Seq<char>)>::empty());
        assert(stripped@.map_values(|m: Message| (m.msgid@, m.msgstr@))
            + Seq::<(Seq<char>, Seq<char>)>::empty() =~= stripped@.map_values(
            |m: Message| (m.msgid@, m.msgstr@),
        ));
    }
    let ghost total = stripped@.len() as int;
    let ghost mut j: int = 0;
    proof {
        assert(stripped@.map_values(|m: Message| (m.msgid@, m.msgstr@)) =~= adds.skip(0));
    }
    while stripped.len() > 0
        invariant
            catalog_wf(*catalog),
            catalog.metadata == old(catalog).metadata,
            0 <= j,
            j + stripped@.len() == total == adds.len(),
            stripped@.map_values(|m: Message| (m.msgid@, m.msgstr@)) == adds.skip(j),
            forall|x: int|
                0 <= x < stripped@.len() ==> (#[trigger] stripped@[x]).source@.len() == 0
                    && stripped@[x].comments@.len() == 0 && !crate::catalog::spec_is_fuzzy(
                    crate::catalog::flags_view(stripped@[x].flags),
                ),
            spec_apply_stripped(pre, adds, 0) == spec_apply_stripped(
                crate::catalog::msgs_view(catalog.messages@),
                adds,
                j,
            ),
        decreases stripped@.len(),
    {
        let ghost old_stripped = stripped@;
        let ghost cur = crate::catalog::msgs_view(catalog.messages@);
        let ghost pre_msgs = catalog.messages@;
        let msg = stripped.remove(0);
        let ghost gm = msg;
        proof {
            assert(old_stripped.map_values(|m: Message| (m.msgid@, m.msgstr@))[0] == (
                gm.msgid@,
                gm.msgstr@,
            ));
            assert(adds[j] == (gm.msgid@, gm.msgstr@));
            assert(stripped@ =~= old_stripped.skip(1));
            assert forall|x: int|
                0 <= x < stripped@.len() implies stripped@.map_values(
                |m: Message| (m.msgid@, m.msgstr@),
            )[x] == (#[trigger] adds.skip(j + 1)[x]) by {
                assert(stripped@[x] == old_stripped[x + 1]);
                assert(old_stripped.map_values(|m: Message| (m.msgid@, m.msgstr@))[x + 1] == (
                    old_stripped[x + 1].msgid@,
                    old_stripped[x + 1].msgstr@,
                ));
                assert(adds.skip(j)[x + 1] == adds[j + 1 + x]);
            }
            assert(stripped@.map_values(|m: Message| (m.msgid@, m.msgstr@)) =~= adds.skip(j + 1));
            crate::catalog::lemma_find_index(pre_msgs, gm.msgid@);
        }
        catalog.append_or_update(msg);
        proof {
            crate::catalog::lemma_apply_append_view(pre_msgs, gm, catalog.messages@);
            assert(crate::catalog::msg_view(gm) == (gm.msgid@, gm.msgstr@, Seq::<char>::empty(),
            Seq::<char>::empty(), false)) by {
                assert(old_stripped[0].source@.len() == 0);
                assert(gm.source@ =~= Seq::<char>::empty());
                assert(gm.comments@ =~= Seq::<char>::empty());
            }
            assert(spec_apply_stripped(cur, adds, j) == spec_apply_stripped(
                crate::catalog::spec_apply_append(
                    cur,
                    (adds[j].0, adds[j].1, Seq::empty(), Seq::empty(), false),
                ),
                adds,
                j + 1,
            ));
            j = j + 1;
        }
    }
    proof {
        assert(spec_apply_stripped(crate::catalog::msgs_view(catalog.messages@), adds, j)
            == crate::catalog::msgs_view(catalog.messages@));
    }
}

/// One item of a book: a chapter with its sub-items, a part title,
/// or a separator.
#[derive(Debug)]
pub enum BookItem {
    Chapter(BookChapter),
    Separator,
    PartTitle(String),
}

/// A chapter: its name, its Markdown content, the path of its source
/// file if it has one, and its sub-items.
#[derive(Debug)]
pub struct BookChapter {
    pub name: String,
    pub content: String,
    pub path: Option<String>,
    pub sub_items: Vec<BookItem>,
}

/// A book: its items in reading order.
#[derive(Debug)]
pub struct Book {
    pub sections: Vec<BookItem>,
}

impl BookChapter {
    /// A chapter with no source path and no sub-items.
    pub fn new(name: String, content: String) -> (r: BookChapter)
        ensures
            r.name == name,
            r.content == content,
    {
        BookChapter { name, content, path: None, sub_items: Vec::new() }
    }
}

fn clone_opt(v: &Option<String>) -> (r: Option<String>)
    ensures
        r == *v,
{
    match v {
        Some(x) => Some(x.clone()),
        None => None,
    }
}

/// The kind of a book item: chapter, separator or part title.
pub open spec fn item_kind(i: BookItem) -> int {
    match i {
        BookItem::Chapter(_) => 0,
        BookItem::Separator => 1,
        BookItem::PartTitle(_) => 2,
    }
}

/// Whether `new` is `old_item` translated with `msgs`: separators
/// unchanged, a part title's text and a chapter's name and content
/// pinned by [`spec_translated`] wherever the old text has no code
/// blocks, chapter paths kept, and sub-items related pairwise.
pub open spec fn item_translated(old_item: BookItem, new: BookItem, msgs: Seq<Message>) -> bool
    decreases old_item,
{
    match old_item {
        BookItem::Separator => new == BookItem::Separator,
        BookItem::PartTitle(t) => (new matches BookItem::PartTitle(nt) && (!has_code_block(
            extraction_of(t@),
        ) ==> spec_translated(t@, msgs) == Some(nt@))),
        BookItem::Chapter(ch) => (new matches BookItem::Chapter(nc) && {
            &&& nc.path == ch.path
            &&& !has_code_block(extraction_of(ch.content@)) ==> spec_translated(ch.content@, msgs)
                == Some(nc.content@)
            &&& !has_code_block(extraction_of(ch.name@)) ==> spec_translated(ch.name@, msgs)
                == Some(nc.name@)
            &&& nc.sub_items@.len() == ch.sub_items@.len()
            &&& forall|k: int|
                0 <= k < ch.sub_items@.len() ==> item_translated(
                    ch.sub_items@[k],
                    #[trigger] nc.sub_items@[k],
                    msgs,
                )
        }),
    }
}

fn translate_item(item: &BookItem, catalog: &Catalog) -> (r: Result<BookItem, ReconstructError>)
    ensures
        r matches Ok(out) ==> item_kind(out) == item_kind(*item),
        r matches Ok(out) ==> (item matches BookItem::Chapter(ch) ==> (out matches
            BookItem::Chapter(oc) && oc.path == ch.path && oc.sub_items@.len()
            == ch.sub_items@.len())),
        r matches Ok(out) ==> item_translated(*item, out, catalog.messages@),
    decreases *item,
{
    match item {
        BookItem::Chapter(ch) => {
            let content = match translate(ch.content.as_str(), catalog) {
                Ok(c) => c,
                Err(e) => {
                    return Err(e);
                },
            };
            proof {
                if !has_code_block(extraction_of(ch.content@)) {
                    assert(spec_translated(ch.content@, catalog.messages@) == Some(content@));
                }
            }
            let name = match translate(ch.name.as_str(), catalog) {
                Ok(n) => n,
                Err(e) => {
                    return Err(e);
                },
            };
            proof {
                if !has_code_block(extraction_of(ch.name@)) {
                    assert(spec_translated(ch.name@, catalog.messages@) == Some(name@));
                }
            }
            let mut new_subs: Vec<BookItem> = Vec::new();
            let mut k: usize = 0;
            while k < ch.sub_items.len()
                invariant
                    0 <= k <= ch.sub_items@.len(),
                    new_subs@.len() == k,
                    *item == BookItem::Chapter(*ch),
                    !has_code_block(extraction_of(ch.content@)) ==> spec_translated(
                        ch.content@,
                        catalog.messages@,
                    ) == Some(content@),
                    !has_code_block(extraction_of(ch.name@)) ==> spec_translated(
                        ch.name@,
                        catalog.messages@,
                    ) == Some(name@),
                    forall|x: int|
                        0 <= x < k ==> item_translated(
                            ch.sub_items@[x],
                            #[trigger] new_subs@[x],
                            catalog.messages@,
                        ),
                decreases ch.sub_items@.len() - k,
            {
                let sub: &BookItem = &ch.sub_items[k];
                proof {
                    broadcast use vstd::std_specs::vec::axiom_vec_index_decreases;
                    assert(*item == BookItem::Chapter(*ch));
                    assert(*ch == item->Chapter_0);
                    assert(decreases_to!(*item => item->Chapter_0));
                    assert(decreases_to!(*ch => ch.sub_items));
                    assert(decreases_to!(ch.sub_items => ch.sub_items[k as int]));
                }
                let t = match translate_item(sub, catalog) {
                    Ok(t) => t,
                    Err(e) => {
                        return Err(e);
                    },
                };
                new_subs.push(t);
                k = k + 1;
            }
            let out = BookItem::Chapter(
                BookChapter { name, content, path: clone_opt(&ch.path), sub_items: new_subs },
            );
            proof {
                assert(item_translated(*item, out, catalog.messages@));
            }
            Ok(out)
        },
        BookItem::Separator => Ok(BookItem::Separator),
        BookItem::PartTitle(title) => {
            let translated = match translate(title.as_str(), catalog) {
                Ok(t) => t,
                Err(e) => {
                    return Err(e);
                },
            };
            proof {
                if !has_code_block(extraction_of(title@)) {
                    assert(spec_translated(title@, catalog.messages@) == Some(translated@));
                }
            }
            Ok(BookItem::PartTitle(translated))
        },
    }
}

/// Translate an entire book: every chapter name and content, and
/// every part title; separators pass through.  On success the
/// book's structure is kept, and every item is related to the old
/// one by [`item_translated`]: names, contents and part titles
/// without code blocks are pinned by [`spec_translated`], paths are
/// kept and sub-items are related pairwise, to any depth.
pub fn translate_book(catalog: &Catalog, book: &mut Book) -> (r: Result<(), ReconstructError>)
    ensures
        r is Ok ==> {
            &&& final(book).sections@.len() == old(book).sections@.len()
            &&& forall|j: int|
                0 <= j < old(book).sections@.len() ==> item_kind(
                    #[trigger] final(book).sections@[j],
                ) == item_kind(old(book).sections@[j])
            &&& forall|j: int|
                0 <= j < old(book).sections@.len() ==> item_translated(
                    old(book).sections@[j],
                    #[trigger] final(book).sections@[j],
                    catalog.messages@,
                )
        },
{
    let ghost orig = book.sections@;
    let mut items = crate::text::take_vec(&mut book.sections);
    let mut out: Vec<BookItem> = Vec::new();
    let ghost mut done: int = 0;
    while items.len() > 0
        invariant
            0 <= done,
            done + items@.len() == orig.len(),
            out@.len() == done,
            forall|x: int| 0 <= x < items@.len() ==> #[trigger] items@[x] == orig[done + x],
            forall|j: int|
                0 <= j < done ==> item_kind(#[trigger] out@[j]) == item_kind(orig[j]),
            forall|j: int|
                0 <= j < done ==> item_translated(orig[j], #[trigger] out@[j], catalog.messages@),
        decreases items@.len(),
    {
        let ghost items0 = items@;
        let item = items.remove(0);
        proof {
            assert(item == orig[done]);
            assert forall|x: int| 0 <= x < items@.len() implies #[trigger] items@[x] == orig[done
                + 1 + x] by {
                assert(items@[x] == items0[x + 1]);
            }
        }
        match translate_item(&item, catalog) {
            Ok(t) => {
                out.push(t);
                proof {
                    done = done + 1;
                }
            },
            Err(e) => {
                out.append(&mut items);
                book.sections = out;
                return Err(e);
            },
        }
    }
    book.sections = out;
    Ok(())
}

} // verus!
