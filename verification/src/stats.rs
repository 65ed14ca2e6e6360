//! Counts of translation statuses in a catalog.

use vstd::prelude::*;

use crate::catalog::{Catalog, Message, flags_view, spec_is_fuzzy};

verus! {

/// Whether a message counts as translated.
pub open spec fn spec_translated(m: Message) -> bool {
    m.msgstr@.len() > 0
}

/// Whether a message counts as fuzzy.
pub open spec fn spec_fuzzy(m: Message) -> bool {
    spec_is_fuzzy(flags_view(m.flags))
}

/// The number of messages of the first `n` for which `which` holds:
/// the four status combinations of translated and fuzzy.
pub open spec fn count_status(msgs: Seq<Message>, n: int, translated: bool, fuzzy: bool) -> int
    decreases n,
{
    if n <= 0 {
        0
    } else {
        count_status(msgs, n - 1, translated, fuzzy) + if spec_translated(msgs[n - 1])
            == translated && spec_fuzzy(msgs[n - 1]) == fuzzy {
            1int
        } else {
            0int
        }
    }
}

/// Counts of translation message statuses.
#[derive(Debug)]
pub struct MessageStats {
    pub language: String,
    pub pot_creation_date: String,
    pub non_translated_count: u32,
    pub translated_count: u32,
    pub fuzzy_non_translated_count: u32,
    pub fuzzy_translated_count: u32,
}

impl MessageStats {
    /// The total number of messages counted.
    pub fn total(&self) -> (r: u32)
        requires
            self.non_translated_count + self.translated_count + self.fuzzy_non_translated_count
                + self.fuzzy_translated_count <= u32::MAX,
        ensures
            r == self.non_translated_count + self.translated_count
                + self.fuzzy_non_translated_count + self.fuzzy_translated_count,
    {
        self.non_translated_count + self.translated_count + self.fuzzy_non_translated_count
            + self.fuzzy_translated_count
    }

    /// Counts of message statuses in the given catalog.
    pub fn for_catalog(catalog: &Catalog) -> (r: MessageStats)
        requires
            catalog.messages@.len() <= u32::MAX,
        ensures
            r.language@ == catalog.metadata.language@,
            r.pot_creation_date@ == catalog.metadata.pot_creation_date@,
            r.translated_count == count_status(
                catalog.messages@,
                catalog.messages@.len() as int,
                true,
                false,
            ),
            r.fuzzy_translated_count == count_status(
                catalog.messages@,
                catalog.messages@.len() as int,
                true,
                true,
            ),
            r.non_translated_count == count_status(
                catalog.messages@,
                catalog.messages@.len() as int,
                false,
                false,
            ),
            r.fuzzy_non_translated_count == count_status(
                catalog.messages@,
                catalog.messages@.len() as int,
                false,
                true,
            ),
    {
        let mut stats = MessageStats {
            language: catalog.metadata.language.clone(),
            pot_creation_date: catalog.metadata.pot_creation_date.clone(),
            non_translated_count: 0,
            translated_count: 0,
            fuzzy_non_translated_count: 0,
            fuzzy_translated_count: 0,
        };
        let mut i: usize = 0;
        while i < catalog.messages.len()
            invariant
                0 <= i <= catalog.messages@.len(),
                catalog.messages@.len() <= u32::MAX,
                stats.language@ == catalog.metadata.language@,
                stats.pot_creation_date@ == catalog.metadata.pot_creation_date@,
                stats.translated_count == count_status(catalog.messages@, i as int, true, false),
                stats.fuzzy_translated_count == count_status(
                    catalog.messages@,
                    i as int,
                    true,
                    true,
                ),
                stats.non_translated_count == count_status(
                    catalog.messages@,
                    i as int,
                    false,
                    false,
                ),
                stats.fuzzy_non_translated_count == count_status(
                    catalog.messages@,
                    i as int,
                    false,
                    true,
                ),
                stats.translated_count <= i,
                stats.fuzzy_translated_count <= i,
                stats.non_translated_count <= i,
                stats.fuzzy_non_translated_count <= i,
            decreases catalog.messages@.len() - i,
        {
            let translated = catalog.messages[i].is_translated();
            let fuzzy = catalog.messages[i].is_fuzzy();
            if translated {
                if fuzzy {
                    stats.fuzzy_translated_count = stats.fuzzy_translated_count + 1;
                } else {
                    stats.translated_count = stats.translated_count + 1;
                }
            } else if fuzzy {
                stats.fuzzy_non_translated_count = stats.fuzzy_non_translated_count + 1;
            } else {
                stats.non_translated_count = stats.non_translated_count + 1;
            }
            i = i + 1;
        }
        stats
    }
}

} // verus!
