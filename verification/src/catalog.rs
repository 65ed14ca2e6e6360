//! The message catalog model.
//!
//! A catalog is an ordered collection of messages, each keyed by its
//! `msgid`, together with header metadata.  The crate's algorithms
//! work on this model; reading and writing PO files is left to the
//! callers around the library.

use vstd::prelude::*;
use vstd::string::StringExecFns;

verus! {

/// The flags of a message, such as `fuzzy`.
#[derive(Debug)]
pub struct MessageFlags {
    pub entries: Vec<String>,
}

/// The character sequences of the flag entries.
pub open spec fn flags_view(f: MessageFlags) -> Seq<Seq<char>> {
    f.entries@.map_values(|s: String| s@)
}

/// Whether a flag list marks the message fuzzy.
pub open spec fn spec_is_fuzzy(f: Seq<Seq<char>>) -> bool {
    exists|i: int| 0 <= i < f.len() && f[i] == "fuzzy"@
}

impl MessageFlags {
    /// An empty flag list.
    pub fn new() -> (r: MessageFlags)
        ensures
            flags_view(r).len() == 0,
    {
        let r = MessageFlags { entries: Vec::new() };
        proof {
            assert(flags_view(r) =~= Seq::<Seq<char>>::empty());
        }
        r
    }

    /// Whether the `fuzzy` flag is present.
    pub fn is_fuzzy(&self) -> (r: bool)
        ensures
            r == spec_is_fuzzy(flags_view(*self)),
    {
        let fuzzy = String::from_str("fuzzy");
        let mut i: usize = 0;
        while i < self.entries.len()
            invariant
                0 <= i <= self.entries@.len(),
                fuzzy@ == "fuzzy"@,
                forall|j: int| 0 <= j < i ==> flags_view(*self)[j] != "fuzzy"@,
            decreases self.entries@.len() - i,
        {
            if self.entries[i].eq(&fuzzy) {
                proof {
                    assert(flags_view(*self)[i as int] == "fuzzy"@);
                }
                return true;
            }
            proof {
                assert(flags_view(*self)[i as int] == self.entries@[i as int]@);
            }
            i = i + 1;
        }
        false
    }

    /// Add a flag unless it is already present.
    pub fn add_flag(&mut self, flag: &str)
        ensures
            flag@ == "fuzzy"@ ==> spec_is_fuzzy(flags_view(*final(self))),
            forall|i: int|
                0 <= i < flags_view(*old(self)).len() ==> flags_view(*final(self))[i]
                    == flags_view(*old(self))[i],
            flags_view(*final(self)).len() == flags_view(*old(self)).len() || flags_view(
                *final(self),
            ) == flags_view(*old(self)).push(flag@),
    {
        let flag_string = flag.to_owned();
        let mut i: usize = 0;
        let ghost pre = flags_view(*self);
        while i < self.entries.len()
            invariant
                0 <= i <= self.entries@.len(),
                flag_string@ == flag@,
                pre == flags_view(*self),
            decreases self.entries@.len() - i,
        {
            if self.entries[i].eq(&flag_string) {
                proof {
                    assert(flags_view(*self)[i as int] == flag@);
                }
                return ;
            }
            i = i + 1;
        }
        self.entries.push(flag_string);
        proof {
            assert(flags_view(*self) =~= pre.push(flag@));
            if flag@ == "fuzzy"@ {
                assert(flags_view(*self)[pre.len() as int] == "fuzzy"@);
            }
        }
    }
}

impl Clone for MessageFlags {
    fn clone(&self) -> (r: Self)
        ensures
            flags_view(r) == flags_view(*self),
    {
        let mut entries: Vec<String> = Vec::new();
        let mut i: usize = 0;
        while i < self.entries.len()
            invariant
                0 <= i <= self.entries@.len(),
                entries@.len() == i,
                forall|j: int| 0 <= j < i ==> entries@[j]@ == self.entries@[j]@,
            decreases self.entries@.len() - i,
        {
            entries.push(self.entries[i].clone());
            i = i + 1;
        }
        let r = MessageFlags { entries };
        proof {
            assert(flags_view(r) =~= flags_view(*self));
        }
        r
    }
}

/// One catalog entry: a source string, its translation, and the
/// accompanying metadata fields.
#[derive(Debug)]
pub struct Message {
    pub msgid: String,
    pub msgstr: String,
    /// Whitespace-separated `path:line` tokens.
    pub source: String,
    /// Translator comment.
    pub comments: String,
    pub flags: MessageFlags,
}

impl Message {
    /// Start building a message.
    pub fn build_singular() -> (r: MessageBuilder)
        ensures
            r.msg.msgid@.len() == 0,
            r.msg.msgstr@.len() == 0,
            r.msg.source@.len() == 0,
            r.msg.comments@.len() == 0,
            flags_view(r.msg.flags).len() == 0,
    {
        MessageBuilder {
            msg: Message {
                msgid: String::new(),
                msgstr: String::new(),
                source: String::new(),
                comments: String::new(),
                flags: MessageFlags::new(),
            },
        }
    }

    /// The source string.
    pub fn msgid(&self) -> (r: &str)
        ensures
            r@ == self.msgid@,
    {
        self.msgid.as_str()
    }

    /// The translation; empty when untranslated.
    pub fn msgstr(&self) -> (r: Result<&str, crate::catalog::CatalogError>)
        ensures
            r matches Ok(s) && s@ == self.msgstr@,
    {
        Ok(self.msgstr.as_str())
    }

    /// The `path:line` source locations.
    pub fn source(&self) -> (r: &str)
        ensures
            r@ == self.source@,
    {
        self.source.as_str()
    }

    /// The translator comment.
    pub fn comments(&self) -> (r: &str)
        ensures
            r@ == self.comments@,
    {
        self.comments.as_str()
    }

    /// Whether a translation is present.
    pub fn is_translated(&self) -> (r: bool)
        ensures
            r == (self.msgstr@.len() > 0),
    {
        self.msgstr.as_str().unicode_len() > 0
    }

    /// Whether the message is marked fuzzy.
    pub fn is_fuzzy(&self) -> (r: bool)
        ensures
            r == spec_is_fuzzy(flags_view(self.flags)),
    {
        self.flags.is_fuzzy()
    }
}

/// Why a catalog operation failed.
#[derive(Clone, Copy, Debug, PartialEq, Eq, Structural)]
pub enum CatalogError {
    /// A message field was not available.
    MissingField,
}

/// Builder for a [`Message`].
#[derive(Debug)]
pub struct MessageBuilder {
    pub msg: Message,
}

impl MessageBuilder {
    pub fn with_msgid(self, msgid: String) -> (r: MessageBuilder)
        ensures
            r.msg == (Message { msgid, ..self.msg }),
    {
        MessageBuilder { msg: Message { msgid, ..self.msg } }
    }

    pub fn with_msgstr(self, msgstr: String) -> (r: MessageBuilder)
        ensures
            r.msg == (Message { msgstr, ..self.msg }),
    {
        MessageBuilder { msg: Message { msgstr, ..self.msg } }
    }

    pub fn with_source(self, source: String) -> (r: MessageBuilder)
        ensures
            r.msg == (Message { source, ..self.msg }),
    {
        MessageBuilder { msg: Message { source, ..self.msg } }
    }

    pub fn with_comments(self, comments: String) -> (r: MessageBuilder)
        ensures
            r.msg == (Message { comments, ..self.msg }),
    {
        MessageBuilder { msg: Message { comments, ..self.msg } }
    }

    pub fn with_flags(self, flags: MessageFlags) -> (r: MessageBuilder)
        ensures
            r.msg == (Message { flags, ..self.msg }),
    {
        MessageBuilder { msg: Message { flags, ..self.msg } }
    }

    pub fn done(self) -> (r: Message)
        ensures
            r == self.msg,
    {
        self.msg
    }
}

/// The catalog header fields.
#[derive(Debug)]
pub struct CatalogMetadata {
    pub project_id_version: String,
    pub language: String,
    pub pot_creation_date: String,
    pub po_revision_date: String,
    pub mime_version: String,
    pub content_type: String,
    pub content_transfer_encoding: String,
}

impl CatalogMetadata {
    /// Metadata with every field empty.
    pub fn new() -> (r: CatalogMetadata)
        ensures
            r.project_id_version@.len() == 0,
            r.language@.len() == 0,
            r.pot_creation_date@.len() == 0,
    {
        CatalogMetadata {
            project_id_version: String::new(),
            language: String::new(),
            pot_creation_date: String::new(),
            po_revision_date: String::new(),
            mime_version: String::new(),
            content_type: String::new(),
            content_transfer_encoding: String::new(),
        }
    }
}

/// An ordered collection of messages keyed by `msgid`, with header
/// metadata.
#[derive(Debug)]
pub struct Catalog {
    pub metadata: CatalogMetadata,
    pub messages: Vec<Message>,
}

/// The msgid of each message, in order.
pub open spec fn catalog_ids(msgs: Seq<Message>) -> Seq<Seq<char>> {
    msgs.map_values(|m: Message| m.msgid@)
}

/// Key uniqueness: no two messages share a msgid.
pub open spec fn catalog_wf(c: Catalog) -> bool {
    forall|i: int, j: int|
        0 <= i < j < c.messages@.len() ==> catalog_ids(c.messages@)[i] != catalog_ids(
            c.messages@,
        )[j]
}

/// The first index holding `id`, or the number of messages.
pub open spec fn find_index(msgs: Seq<Message>, id: Seq<char>) -> int
    decreases msgs.len(),
{
    if msgs.len() == 0 {
        0
    } else if msgs[0].msgid@ == id {
        0
    } else {
        1 + find_index(msgs.drop_first(), id)
    }
}

pub proof fn lemma_find_index(msgs: Seq<Message>, id: Seq<char>)
    ensures
        0 <= find_index(msgs, id) <= msgs.len(),
        forall|j: int| 0 <= j < find_index(msgs, id) ==> msgs[j].msgid@ != id,
        find_index(msgs, id) < msgs.len() ==> msgs[find_index(msgs, id)].msgid@ == id,
    decreases msgs.len(),
{
    if msgs.len() > 0 && msgs[0].msgid@ != id {
        lemma_find_index(msgs.drop_first(), id);
        assert forall|j: int| 0 <= j < find_index(msgs, id) implies msgs[j].msgid@ != id by {
            if j > 0 {
                assert(msgs.drop_first()[j - 1].msgid@ != id);
            }
        }
        if find_index(msgs, id) < msgs.len() {
            assert(msgs.drop_first()[find_index(msgs, id) - 1].msgid@ == id);
        }
    }
}

impl Catalog {
    /// An empty catalog with the given metadata.
    pub fn new(metadata: CatalogMetadata) -> (r: Catalog)
        ensures
            r.messages@.len() == 0,
            r.metadata == metadata,
            catalog_wf(r),
    {
        Catalog { metadata, messages: Vec::new() }
    }

    /// The messages, in catalog order.
    pub fn messages(&self) -> (r: &Vec<Message>)
        ensures
            r == &self.messages,
    {
        &self.messages
    }

    /// Find the message with the given msgid.  Returns the message
    /// exactly when one carries that msgid.
    pub fn find_message(&self, msgid: &str) -> (r: Option<&Message>)
        ensures
            match r {
                Some(m) => find_index(self.messages@, msgid@) < self.messages@.len() && *m
                    == self.messages@[find_index(self.messages@, msgid@)] && m.msgid@ == msgid@,
                None => forall|j: int|
                    0 <= j < self.messages@.len() ==> self.messages@[j].msgid@ != msgid@,
            },
    {
        proof {
            lemma_find_index(self.messages@, msgid@);
        }
        let mut i: usize = 0;
        while i < self.messages.len()
            invariant
                0 <= i <= self.messages@.len(),
                forall|j: int| 0 <= j < i ==> self.messages@[j].msgid@ != msgid@,
                i <= find_index(self.messages@, msgid@),
            decreases self.messages@.len() - i,
        {
            if str_eq(self.messages[i].msgid.as_str(), msgid) {
                proof {
                    lemma_find_index(self.messages@, msgid@);
                    assert(find_index(self.messages@, msgid@) == i);
                }
                return Some(&self.messages[i]);
            }
            proof {
                lemma_find_index(self.messages@, msgid@);
            }
            i = i + 1;
        }
        None
    }

    /// Append a message, or replace the message that already carries
    /// its msgid, keeping its position.  Key uniqueness is
    /// preserved.
    pub fn append_or_update(&mut self, m: Message)
        requires
            catalog_wf(*old(self)),
        ensures
            catalog_wf(*final(self)),
            final(self).metadata == old(self).metadata,
            ({
                let idx = find_index(old(self).messages@, m.msgid@);
                if idx < old(self).messages@.len() {
                    final(self).messages@ == old(self).messages@.update(idx, m)
                } else {
                    final(self).messages@ == old(self).messages@.push(m)
                }
            }),
    {
        proof {
            lemma_find_index(self.messages@, m.msgid@);
        }
        let ghost pre = self.messages@;
        let ghost gm = m;
        let mut i: usize = 0;
        while i < self.messages.len()
            invariant
                0 <= i <= self.messages@.len(),
                *self == *old(self),
                catalog_wf(*old(self)),
                pre == self.messages@,
                m == gm,
                forall|j: int| 0 <= j < i ==> self.messages@[j].msgid@ != m.msgid@,
                i <= find_index(pre, m.msgid@),
            decreases self.messages@.len() - i,
        {
            if str_eq(self.messages[i].msgid.as_str(), m.msgid.as_str()) {
                proof {
                    lemma_find_index(pre, m.msgid@);
                    assert(find_index(pre, m.msgid@) == i);
                }
                self.messages.set(i, m);
                proof {
                    assert(self.messages@ =~= pre.update(i as int, gm));
                    assert forall|a: int, b: int|
                        0 <= a < b < self.messages@.len() implies catalog_ids(self.messages@)[a]
                        != catalog_ids(self.messages@)[b] by {
                        assert(catalog_ids(self.messages@)[a] == self.messages@[a].msgid@);
                        assert(catalog_ids(self.messages@)[b] == self.messages@[b].msgid@);
                        lemma_catalog_key_uniqueness(*old(self), a, b);
                        if a == i {
                            assert(self.messages@[a].msgid@ == pre[i as int].msgid@);
                        } else if b == i {
                            assert(self.messages@[b].msgid@ == pre[i as int].msgid@);
                        }
                    }
                }
                return ;
            }
            proof {
                lemma_find_index(pre, m.msgid@);
            }
            i = i + 1;
        }
        self.messages.push(m);
        proof {
            lemma_find_index(pre, gm.msgid@);
            assert(find_index(pre, gm.msgid@) == pre.len());
            assert(self.messages@ =~= pre.push(gm));
            assert forall|a: int, b: int|
                0 <= a < b < self.messages@.len() implies catalog_ids(self.messages@)[a]
                != catalog_ids(self.messages@)[b] by {
                assert(catalog_ids(self.messages@)[a] == self.messages@[a].msgid@);
                assert(catalog_ids(self.messages@)[b] == self.messages@[b].msgid@);
                if b < pre.len() {
                    lemma_catalog_key_uniqueness(*old(self), a, b);
                }
            }
        }
    }
}

/// The contract-level view of a message: msgid, msgstr, source,
/// comments, and whether it is fuzzy.
pub open spec fn msg_view(m: Message) -> (Seq<char>, Seq<char>, Seq<char>, Seq<char>, bool) {
    (m.msgid@, m.msgstr@, m.source@, m.comments@, spec_is_fuzzy(flags_view(m.flags)))
}

/// The views of a message list, in order.
pub open spec fn msgs_view(s: Seq<Message>) -> Seq<(Seq<char>, Seq<char>, Seq<char>, Seq<char>, bool)> {
    s.map_values(|m: Message| msg_view(m))
}

/// The first index of a message view with the given msgid, or the
/// length.
pub open spec fn find_index_v(
    msgs: Seq<(Seq<char>, Seq<char>, Seq<char>, Seq<char>, bool)>,
    id: Seq<char>,
) -> int
    decreases msgs.len(),
{
    if msgs.len() == 0 {
        0
    } else if msgs[0].0 == id {
        0
    } else {
        1 + find_index_v(msgs.drop_first(), id)
    }
}

/// How the extractor adds one message: a new msgid is appended with
/// the given source and comment and no translation; an existing one
/// is replaced in place by a fresh entry whose source is the old
/// sources extended, on a new line, by the given one.
pub open spec fn spec_add_message(
    msgs: Seq<(Seq<char>, Seq<char>, Seq<char>, Seq<char>, bool)>,
    msgid: Seq<char>,
    source: Seq<char>,
    comment: Seq<char>,
) -> Seq<(Seq<char>, Seq<char>, Seq<char>, Seq<char>, bool)> {
    let k = find_index_v(msgs, msgid);
    if k < msgs.len() {
        msgs.update(
            k,
            (msgid, Seq::empty(), msgs[k].2 + seq!['\n'] + source, comment, false),
        )
    } else {
        msgs.push((msgid, Seq::empty(), source, comment, false))
    }
}

/// One append-or-update of a message view: an existing msgid is
/// replaced in place, a new one appended.
pub open spec fn spec_apply_append(
    cur: Seq<(Seq<char>, Seq<char>, Seq<char>, Seq<char>, bool)>,
    m: (Seq<char>, Seq<char>, Seq<char>, Seq<char>, bool),
) -> Seq<(Seq<char>, Seq<char>, Seq<char>, Seq<char>, bool)> {
    let k = find_index_v(cur, m.0);
    if k < cur.len() {
        cur.update(k, m)
    } else {
        cur.push(m)
    }
}

/// What `append_or_update` does, seen at the view level.
pub proof fn lemma_apply_append_view(pre: Seq<Message>, m: Message, post: Seq<Message>)
    requires
        post == (if find_index(pre, m.msgid@) < pre.len() {
            pre.update(find_index(pre, m.msgid@), m)
        } else {
            pre.push(m)
        }),
    ensures
        msgs_view(post) == spec_apply_append(msgs_view(pre), msg_view(m)),
{
    lemma_find_index(pre, m.msgid@);
    lemma_find_index_view(pre, m.msgid@);
    let k = find_index(pre, m.msgid@);
    let target = spec_apply_append(msgs_view(pre), msg_view(m));
    assert forall|j: int| 0 <= j < msgs_view(post).len() implies msgs_view(post)[j]
        == target[j] by {
        assert(msgs_view(post)[j] == msg_view(post[j]));
        if j != k || k >= pre.len() {
            if j < pre.len() {
                assert(post[j] == pre[j]);
                assert(target[j] == msgs_view(pre)[j]);
                assert(msgs_view(pre)[j] == msg_view(pre[j]));
            } else {
                assert(post[j] == m);
            }
        } else {
            assert(post[j] == m);
        }
    }
    assert(msgs_view(post) =~= target);
}

/// `find_index` and its view-level twin agree.
pub proof fn lemma_find_index_view(msgs: Seq<Message>, id: Seq<char>)
    ensures
        find_index(msgs, id) == find_index_v(msgs_view(msgs), id),
    decreases msgs.len(),
{
    if msgs.len() > 0 {
        assert(msgs_view(msgs)[0] == msg_view(msgs[0]));
        if msgs[0].msgid@ != id {
            lemma_find_index_view(msgs.drop_first(), id);
            assert(msgs_view(msgs.drop_first()) =~= msgs_view(msgs).drop_first());
        }
    }
}

/// Bounds of [`find_index_v`], and that a found index carries the
/// msgid looked for.
pub proof fn lemma_find_index_v_props(
    msgs: Seq<(Seq<char>, Seq<char>, Seq<char>, Seq<char>, bool)>,
    id: Seq<char>,
)
    ensures
        0 <= find_index_v(msgs, id) <= msgs.len(),
        find_index_v(msgs, id) < msgs.len() ==> msgs[find_index_v(msgs, id)].0 == id,
    decreases msgs.len(),
{
    if msgs.len() > 0 && msgs[0].0 != id {
        lemma_find_index_v_props(msgs.drop_first(), id);
        if find_index_v(msgs, id) < msgs.len() {
            assert(msgs.drop_first()[find_index_v(msgs, id) - 1].0 == id);
        }
    }
}

/// Key uniqueness of well-formed catalogs, as a statement of its
/// own: in any catalog that satisfies [`catalog_wf`] — as every
/// catalog the extractor and the normalizer produce does — msgid
/// values are unique.
pub proof fn lemma_catalog_key_uniqueness(c: Catalog, i: int, j: int)
    requires
        catalog_wf(c),
        0 <= i < c.messages@.len(),
        0 <= j < c.messages@.len(),
        i != j,
    ensures
        c.messages@[i].msgid@ != c.messages@[j].msgid@,
{
    if i < j {
        assert(catalog_ids(c.messages@)[i] != catalog_ids(c.messages@)[j]);
        assert(catalog_ids(c.messages@)[i] == c.messages@[i].msgid@);
        assert(catalog_ids(c.messages@)[j] == c.messages@[j].msgid@);
    } else {
        assert(catalog_ids(c.messages@)[j] != catalog_ids(c.messages@)[i]);
        assert(catalog_ids(c.messages@)[i] == c.messages@[i].msgid@);
        assert(catalog_ids(c.messages@)[j] == c.messages@[j].msgid@);
    }
}

/// Whether two strings hold the same characters.
pub fn str_eq(a: &str, b: &str) -> (r: bool)
    ensures
        r == (a@ == b@),
{
    let sa = a.to_owned();
    let sb = b.to_owned();
    sa.eq(&sb)
}

} // verus!
