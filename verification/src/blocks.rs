//! Grouping of index descriptors into blocks. Consecutive index lines that
//! share a byte offset describe articles packed into the same compressed
//! unit and must be decoded together; a group that grows past the safety
//! limit signals a desynchronized index and is fatal.

use vstd::prelude::*;
use crate::index::ArticleDescriptor;
use crate::chars::string_from_chars;

verus! {

/// The most descriptors one block may hold.
pub const GROUP_LIMIT: usize = 100;

/// The groups' descriptors, in order, one sequence.
pub open spec fn concat_groups(gs: Seq<Seq<ArticleDescriptor>>) -> Seq<ArticleDescriptor>
    decreases gs.len(),
{
    if gs.len() == 0 {
        Seq::empty()
    } else {
        concat_groups(gs.drop_last()) + gs.last()
    }
}

/// All descriptors of a group share one offset.
pub open spec fn same_offset(g: Seq<ArticleDescriptor>) -> bool {
    forall|k: int| 0 <= k < g.len() ==> #[trigger] g[k].offset == g[0].offset
}

/// A finished group: nonempty, within the limit, one offset.
pub open spec fn good_group(g: Seq<ArticleDescriptor>) -> bool {
    1 <= g.len() <= GROUP_LIMIT && same_offset(g)
}

/// More descriptors than one block may hold arrived for a single offset.
#[derive(Debug, PartialEq, Eq, Structural, Clone, Copy)]
pub enum GroupError {
    TooManyDescriptors,
}

/// The stateful grouper: descriptors are pushed one by one, in index order;
/// whenever the offset changes, the finished group comes back out.
pub struct BlockGrouper {
    pub current: Vec<ArticleDescriptor>,
    pub emitted: Ghost<Seq<Seq<ArticleDescriptor>>>,
}

impl BlockGrouper {
    /// The groups handed out so far.
    pub open spec fn emitted_groups(self) -> Seq<Seq<ArticleDescriptor>> {
        self.emitted@
    }

    /// The group still being collected.
    pub open spec fn pending(self) -> Seq<ArticleDescriptor> {
        self.current@
    }

    /// Every descriptor pushed so far, in order: the emitted groups form a
    /// partition of this sequence, the pending group its tail.
    pub open spec fn all_pushed(self) -> Seq<ArticleDescriptor> {
        concat_groups(self.emitted@) + self.current@
    }

    pub open spec fn wf(self) -> bool {
        (forall|g: int|
            0 <= g < self.emitted@.len() ==> good_group(#[trigger] self.emitted@[g]))
            && self.current@.len() <= GROUP_LIMIT && same_offset(self.current@)
    }

    pub fn new() -> (r: BlockGrouper)
        ensures
            r.wf(),
            r.emitted_groups().len() == 0,
            r.pending().len() == 0,
    {
        BlockGrouper { current: Vec::new(), emitted: Ghost(Seq::empty()) }
    }

    /// Takes the next descriptor, in index order. When its offset differs
    /// from the pending group's, that group is finished and returned, and
    /// the descriptor starts the next one; a group already at the limit
    /// that would grow further is the fatal case.
    pub fn push(&mut self, d: ArticleDescriptor) -> (r: Result<
        Option<Vec<ArticleDescriptor>>,
        GroupError,
    >)
        requires
            old(self).wf(),
        ensures
            final(self).wf(),
            match r {
                Ok(out) => {
                    &&& final(self).all_pushed() == old(self).all_pushed() + seq![d]
                    &&& match out {
                        Some(g) => {
                            &&& old(self).pending().len() > 0
                            &&& d.offset != old(self).pending()[0].offset
                            &&& g@ == old(self).pending()
                            &&& final(self).emitted_groups() == old(self).emitted_groups().push(
                                old(self).pending(),
                            )
                            &&& final(self).pending() == seq![d]
                        },
                        None => {
                            &&& old(self).pending().len() == 0 || d.offset == old(
                                self,
                            ).pending()[0].offset
                            &&& old(self).pending().len() < GROUP_LIMIT
                            &&& final(self).emitted_groups() == old(self).emitted_groups()
                            &&& final(self).pending() == old(self).pending().push(d)
                        },
                    }
                },
                Err(_) => {
                    &&& old(self).pending().len() == GROUP_LIMIT
                    &&& d.offset == old(self).pending()[0].offset
                    &&& *final(self) == *old(self)
                },
            },
    {
        let start_new = if self.current.len() > 0 {
            let last: &ArticleDescriptor = &self.current[0];
            last.offset != d.offset
        } else {
            false
        };
        if start_new {
            let mut group: Vec<ArticleDescriptor> = Vec::new();
            group.push(d);
            core::mem::swap(&mut group, &mut self.current);
            let ghost pre = self.emitted@;
            proof {
                self.emitted@ = pre.push(group@);
                assert(self.emitted@.drop_last() =~= pre);
                assert(concat_groups(self.emitted@) =~= concat_groups(pre) + group@);
                assert(self.all_pushed() =~= old(self).all_pushed() + seq![d]);
            }
            Ok(Some(group))
        } else {
            if self.current.len() >= GROUP_LIMIT {
                return Err(GroupError::TooManyDescriptors);
            }
            self.current.push(d);
            proof {
                assert(same_offset(self.current@));
                assert(self.all_pushed() =~= old(self).all_pushed() + seq![d]);
            }
            Ok(None)
        }
    }

    /// Hands out the last group once the index is exhausted; `None` when
    /// nothing is pending.
    pub fn finish(&mut self) -> (r: Option<Vec<ArticleDescriptor>>)
        requires
            old(self).wf(),
        ensures
            final(self).wf(),
            final(self).all_pushed() == old(self).all_pushed(),
            match r {
                Some(g) => {
                    &&& old(self).pending().len() > 0
                    &&& g@ == old(self).pending()
                    &&& final(self).emitted_groups() == old(self).emitted_groups().push(
                        old(self).pending(),
                    )
                    &&& final(self).pending().len() == 0
                },
                None => old(self).pending().len() == 0 && *final(self) == *old(self),
            },
    {
        if self.current.len() == 0 {
            return None;
        }
        let mut group: Vec<ArticleDescriptor> = Vec::new();
        core::mem::swap(&mut group, &mut self.current);
        let ghost pre = self.emitted@;
        proof {
            self.emitted@ = pre.push(group@);
            assert(self.emitted@.drop_last() =~= pre);
            assert(concat_groups(self.emitted@) =~= concat_groups(pre) + group@);
            assert(self.all_pushed() =~= old(self).all_pushed());
        }
        Some(group)
    }
}

/// The emitted groups partition what was pushed: laid end to end, followed
/// by the pending tail, they are exactly the pushed descriptors in order,
/// each group nonempty, within the limit, and of one offset.
pub proof fn lemma_groups_partition(g: BlockGrouper)
    requires
        g.wf(),
    ensures
        concat_groups(g.emitted_groups()) + g.pending() == g.all_pushed(),
        forall|k: int| 0 <= k < g.emitted_groups().len() ==> good_group(#[trigger] g.emitted_groups()[k]),
{
}

/// One block: the descriptors of one compressed unit and its decompressed
/// content, wrapped so the unit's records parse as a single document.
pub struct DumpBlock {
    pub descriptors: Vec<ArticleDescriptor>,
    pub raw_xml: String,
}

impl DumpBlock {
    /// Wraps a decompressed unit's text in the synthetic container element
    /// and pairs it with its descriptor group.
    pub fn assemble(descriptors: Vec<ArticleDescriptor>, content: String) -> (b: DumpBlock)
        ensures
            b.descriptors@ == descriptors@,
            b.raw_xml@ == "<dummyroot>"@ + content@ + "</dummyroot>"@,
    {
        let mut raw_xml = String::new();
        raw_xml.append("<dummyroot>");
        raw_xml.append(content.as_str());
        raw_xml.append("</dummyroot>");
        DumpBlock { descriptors, raw_xml }
    }

    /// A one-line account of the block: its first and last titles and
    /// identifiers, how many descriptors it holds, and its content's size.
    pub fn describe(&self) -> (s: String)
        requires
            self.descriptors@.len() > 0,
        ensures
            s@ == "DumpBlock { "@ + self.descriptors@[0].title@ + "-"@ + self.descriptors@[self.descriptors@.len()
                - 1].title@ + " ("@ + crate::output::dec_digits(self.descriptors@[0].id as nat)
                + "-"@ + crate::output::dec_digits(
                self.descriptors@[self.descriptors@.len() - 1].id as nat,
            ) + "), "@ + crate::output::dec_digits(self.descriptors@.len() as nat)
                + " descriptors, "@ + crate::output::dec_digits(self.raw_xml@.len() as nat)
                + " chars in xml }"@,
    {
        let n = self.descriptors.len();
        let first = &self.descriptors[0];
        let last = &self.descriptors[n - 1];
        let mut s = String::new();
        s.append("DumpBlock { ");
        s.append(first.title.as_str());
        s.append("-");
        s.append(last.title.as_str());
        s.append(" (");
        s.append(string_from_chars(&crate::output::dec_chars(first.id as u64)).as_str());
        s.append("-");
        s.append(string_from_chars(&crate::output::dec_chars(last.id as u64)).as_str());
        s.append("), ");
        s.append(string_from_chars(&crate::output::dec_chars(n as u64)).as_str());
        s.append(" descriptors, ");
        let len = self.raw_xml.as_str().unicode_len();
        s.append(string_from_chars(&crate::output::dec_chars(len as u64)).as_str());
        s.append(" chars in xml }");
        s
    }
}

} // verus!
