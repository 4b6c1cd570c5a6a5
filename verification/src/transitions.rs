//! The indexer as a mathematical machine: its states, the transition that
//! each state makes on a buffer, a whole pass over a buffer, and what holds
//! of the entries that a pass emits.

use vstd::prelude::*;
use crate::error::FormatError;
use crate::index::{entry_line, EntryType, EntryView, LINE_FEED};
use crate::tar::{blocks_for, format_of, is_zero, size_of, type_flag_of, Format, TypeFlag};
use crate::tar_stream::ProcState;

verus! {

/// The indexer's state as a mathematical value.
pub ghost struct StateView {
    pub proc_state: ProcState,
    /// Number of archive bytes consumed so far.
    pub offset: usize,
    /// Offset at which the entry in progress began.
    pub entry_begin: usize,
    /// The bytes of a long name read so far, for the next entry.
    pub long_name: Seq<u8>,
}

/// One transition: the state it leads to, how many bytes of the buffer it
/// consumes, and the entry that it emits, if any.
pub ghost struct Transition {
    pub next: StateView,
    pub consumed: nat,
    pub emitted: Option<EntryView>,
}

/// What one pass over a buffer achieves: the state it ends in, the number of
/// bytes it consumed, the entries it emitted, in order, and the error that
/// stopped it, if one did.
pub ghost struct Progress {
    pub state: StateView,
    pub consumed: nat,
    pub entries: Seq<EntryView>,
    pub failure: Option<FormatError>,
}

/// Bytes of padding that follow `len` bytes to fill their last block.
pub open spec fn padding_for(len: nat) -> nat {
    (blocks_for(len) * 512 - len) as nat
}

/// `name` without its trailing NUL bytes.
pub open spec fn trimmed(name: Seq<u8>) -> Seq<u8>
    decreases name.len(),
{
    if name.len() > 0 && name.last() == 0 {
        trimmed(name.drop_last())
    } else {
        name
    }
}

/// The name of the entry that the header `block` announces: the long name
/// read before it if there is one, else the block's short name field; in
/// both cases without trailing NUL bytes.
pub open spec fn effective_name(long_name: Seq<u8>, block: Seq<u8>) -> Seq<u8> {
    if long_name.len() > 0 {
        trimmed(long_name)
    } else {
        trimmed(block.subrange(0, 100))
    }
}

impl StateView {
    /// The state before the first byte of an archive.
    pub open spec fn initial() -> StateView {
        StateView {
            proc_state: ProcState::ParseHeader,
            offset: 0,
            entry_begin: 0,
            long_name: Seq::empty(),
        }
    }

    /// What holds of every state that the indexer reaches: the entry in
    /// progress began at or before the current offset, and what is left to
    /// read or to skip ends at an offset that fits a `usize`.
    pub open spec fn well_formed(self) -> bool {
        &&& self.entry_begin <= self.offset
        &&& match self.proc_state {
            ProcState::ReadLongName(remaining) => {
                &&& blocks_for(self.long_name.len() + remaining as nat) * 512 <= usize::MAX
                &&& self.offset + remaining + padding_for(self.long_name.len() + remaining as nat)
                    <= usize::MAX
            },
            ProcState::SkipFileContent(remaining) => self.offset + remaining <= usize::MAX,
            _ => true,
        }
    }

    /// The state after a header block that is all zero.
    pub open spec fn after_zero_block(self, next: ProcState) -> StateView {
        StateView { proc_state: next, offset: (self.offset + 512) as usize, ..self }
    }
}

/// What a header block does in state `ParseHeader`. A block without the GNU
/// magic opens the end-of-archive marker if it is all zero and is an error
/// otherwise. A long-name header starts a fresh long name. A file or a
/// directory is emitted with the offset at which the previous entry ended as
/// its beginning; a directory has no content, a file's content is skipped
/// together with its padding.
pub open spec fn parse_header_spec(s: StateView, block: Seq<u8>) -> Result<
    Transition,
    FormatError,
> {
    let data_begin = s.offset + 512;
    if format_of(block) != Format::Gnu {
        if !is_zero(block) {
            Err(FormatError::UnsupportedFormat)
        } else if data_begin > usize::MAX {
            Err(FormatError::OffsetOverflow)
        } else {
            Ok(
                (Transition {
                    next: s.after_zero_block(ProcState::EndOfArchive),
                    consumed: 512,
                    emitted: None,
                }),
            )
        }
    } else {
        match type_flag_of(block[156]) {
            TypeFlag::Unsupported(c) => Err(FormatError::UnsupportedBlockType(c)),
            TypeFlag::GnuLongPathName => match size_of(block) {
                Err(e) => Err(e),
                Ok(len) => if data_begin + blocks_for(len as nat) * 512 > usize::MAX {
                    Err(FormatError::OffsetOverflow)
                } else {
                    Ok(
                        (Transition {
                            next: (StateView {
                                proc_state: ProcState::ReadLongName(len),
                                offset: data_begin as usize,
                                entry_begin: s.entry_begin,
                                long_name: Seq::empty(),
                            }),
                            consumed: 512,
                            emitted: None,
                        }),
                    )
                },
            },
            TypeFlag::RegularFile => match size_of(block) {
                Err(e) => Err(e),
                Ok(size) => if data_begin + blocks_for(size as nat) * 512 > usize::MAX {
                    Err(FormatError::OffsetOverflow)
                } else {
                    Ok(
                        (Transition {
                            next: (StateView {
                                proc_state: ProcState::SkipFileContent(
                                    (blocks_for(size as nat) * 512) as usize,
                                ),
                                offset: data_begin as usize,
                                entry_begin: s.entry_begin,
                                long_name: Seq::empty(),
                            }),
                            consumed: 512,
                            emitted: Some(
                                (EntryView {
                                    header_begin: s.entry_begin,
                                    data_begin: data_begin as usize,
                                    data_end: (data_begin + size) as usize,
                                    etype: EntryType::File,
                                    name: effective_name(s.long_name, block),
                                }),
                            ),
                        }),
                    )
                },
            },
            TypeFlag::Directory => if data_begin > usize::MAX {
                Err(FormatError::OffsetOverflow)
            } else {
                Ok(
                    (Transition {
                        next: (StateView {
                            proc_state: ProcState::ParseHeader,
                            offset: data_begin as usize,
                            entry_begin: data_begin as usize,
                            long_name: Seq::empty(),
                        }),
                        consumed: 512,
                        emitted: Some(
                            (EntryView {
                                header_begin: s.entry_begin,
                                data_begin: data_begin as usize,
                                data_end: data_begin as usize,
                                etype: EntryType::Directory,
                                name: effective_name(s.long_name, block),
                            }),
                        ),
                    }),
                )
            },
        }
    }
}

/// What the buffer `buf` does in state `ReadLongName(remaining)`. If it
/// holds the rest of the name and the padding that fills the name's last
/// block, both are consumed and a header comes next. Else as much of the name
/// as it holds is taken and kept, and no padding.
pub open spec fn read_long_name_spec(s: StateView, remaining: usize, buf: Seq<u8>) -> Transition {
    let padding = padding_for(s.long_name.len() + remaining as nat);
    if buf.len() >= remaining + padding {
        Transition {
            next: StateView {
                proc_state: ProcState::ParseHeader,
                offset: (s.offset + remaining + padding) as usize,
                entry_begin: s.entry_begin,
                long_name: s.long_name + buf.take(remaining as int),
            },
            consumed: remaining as nat + padding,
            emitted: None,
        }
    } else {
        let taken = if remaining as nat <= buf.len() {
            remaining as nat
        } else {
            buf.len()
        };
        Transition {
            next: StateView {
                proc_state: ProcState::ReadLongName((remaining - taken) as usize),
                offset: (s.offset + taken) as usize,
                entry_begin: s.entry_begin,
                long_name: s.long_name + buf.take(taken as int),
            },
            consumed: taken,
            emitted: None,
        }
    }
}

/// What `available` bytes do in state `SkipFileContent(remaining)`: as many
/// of them as are left to skip are consumed. When none is left, a header
/// comes next, and the next entry begins at the offset then reached.
pub open spec fn skip_file_content_spec(s: StateView, remaining: usize, available: nat) -> Transition {
    if available < remaining {
        Transition {
            next: StateView {
                proc_state: ProcState::SkipFileContent((remaining - available) as usize),
                offset: (s.offset + available) as usize,
                ..s
            },
            consumed: available,
            emitted: None,
        }
    } else {
        Transition {
            next: StateView {
                proc_state: ProcState::ParseHeader,
                offset: (s.offset + remaining) as usize,
                entry_begin: (s.offset + remaining) as usize,
                ..s
            },
            consumed: remaining as nat,
            emitted: None,
        }
    }
}

/// What a block does in state `EndOfArchive`: a second all-zero block
/// completes the archive, any other block is an error.
pub open spec fn end_of_archive_spec(s: StateView, block: Seq<u8>) -> Result<
    Transition,
    FormatError,
> {
    if !is_zero(block) {
        Err(FormatError::LoneZeroBlock)
    } else if s.offset + 512 > usize::MAX {
        Err(FormatError::OffsetOverflow)
    } else {
        Ok(
            (Transition {
                next: s.after_zero_block(ProcState::Done),
                consumed: 512,
                emitted: None,
            }),
        )
    }
}

/// The transition that a buffer of at least one block causes in a state
/// other than `Done`.
pub open spec fn step_spec(s: StateView, buf: Seq<u8>) -> Result<Transition, FormatError> {
    match s.proc_state {
        ProcState::ParseHeader => parse_header_spec(s, buf),
        ProcState::ReadLongName(remaining) => Ok(read_long_name_spec(s, remaining, buf)),
        ProcState::SkipFileContent(remaining) => Ok(
            skip_file_content_spec(s, remaining, buf.len()),
        ),
        ProcState::EndOfArchive => end_of_archive_spec(s, buf),
        ProcState::Done => Ok((Transition { next: s, consumed: 0, emitted: None })),
    }
}

/// 1 for the states that a transition can leave without consuming a byte,
/// 0 for the others.
pub open spec fn rank(proc_state: ProcState) -> nat {
    match proc_state {
        ProcState::ReadLongName(_) => 1,
        ProcState::SkipFileContent(_) => 1,
        _ => 0,
    }
}

/// No entry and no failure, in state `s`.
pub open spec fn no_progress(s: StateView) -> Progress {
    Progress { state: s, consumed: 0, entries: Seq::empty(), failure: None }
}

/// The entry that a transition emits, as a sequence of one or none.
pub open spec fn emitted_entries(emitted: Option<EntryView>) -> Seq<EntryView> {
    match emitted {
        Some(entry) => seq![entry],
        None => Seq::empty(),
    }
}

/// One pass over the buffer `buf`, starting in state `s`: transitions follow
/// each other for as long as the archive is not complete and at least one
/// whole block of the buffer is left. A failed transition ends the pass in the
/// state in which it was tried; what was emitted before it stays.
pub open spec fn advance_spec(s: StateView, buf: Seq<u8>) -> Progress
    decreases buf.len(), rank(s.proc_state),
    via advance_spec_decreases
{
    if s.proc_state == ProcState::Done || buf.len() < 512 {
        no_progress(s)
    } else {
        match step_spec(s, buf) {
            Err(e) => Progress { failure: Some(e), ..no_progress(s) },
            Ok(t) => {
                let rest = advance_spec(t.next, buf.skip(t.consumed as int));
                Progress {
                    state: rest.state,
                    consumed: t.consumed + rest.consumed,
                    entries: emitted_entries(t.emitted) + rest.entries,
                    failure: rest.failure,
                }
            },
        }
    }
}

/// Padding is less than one block.
pub proof fn lemma_padding_bound(len: nat)
    ensures
        padding_for(len) < 512,
        len + padding_for(len) == blocks_for(len) * 512,
{
}

/// A transition consumes no more than the buffer holds, and only a
/// transition into `ParseHeader` consumes nothing.
pub proof fn lemma_step_consumes(s: StateView, buf: Seq<u8>)
    requires
        s.proc_state != ProcState::Done,
        buf.len() >= 512,
        step_spec(s, buf).is_ok(),
    ensures
        step_spec(s, buf).unwrap().consumed <= buf.len(),
        step_spec(s, buf).unwrap().consumed == 0 ==> rank(s.proc_state) == 1 && rank(
            step_spec(s, buf).unwrap().next.proc_state,
        ) == 0,
{
    match s.proc_state {
        ProcState::ReadLongName(remaining) => {
            lemma_padding_bound(s.long_name.len() + remaining as nat);
        },
        _ => {},
    }
}

#[via_fn]
proof fn advance_spec_decreases(s: StateView, buf: Seq<u8>) {
    if !(s.proc_state == ProcState::Done || buf.len() < 512) {
        if step_spec(s, buf).is_ok() {
            lemma_step_consumes(s, buf);
        }
    }
}

/// A transition leads from a well-formed state to a well-formed state.
pub proof fn lemma_step_well_formed(s: StateView, buf: Seq<u8>)
    requires
        s.well_formed(),
        buf.len() >= 512,
        step_spec(s, buf).is_ok(),
    ensures
        step_spec(s, buf).unwrap().next.well_formed(),
{
    match s.proc_state {
        ProcState::ReadLongName(remaining) => {
            lemma_padding_bound(s.long_name.len() + remaining as nat);
        },
        ProcState::ParseHeader => {
            if size_of(buf).is_ok() {
                lemma_padding_bound(size_of(buf).unwrap() as nat);
            }
        },
        _ => {},
    }
}

/// A pass that did not fail leaves less than a block, unless the archive is
/// complete; and it consumes no more than the buffer holds.
pub proof fn lemma_advance_leaves(s: StateView, buf: Seq<u8>)
    ensures
        advance_spec(s, buf).consumed <= buf.len(),
        advance_spec(s, buf).failure.is_none() ==> advance_spec(s, buf).state.proc_state
            == ProcState::Done || buf.len() - advance_spec(s, buf).consumed < 512,
    decreases buf.len(), rank(s.proc_state),
{
    if !(s.proc_state == ProcState::Done || buf.len() < 512) {
        if step_spec(s, buf).is_ok() {
            lemma_step_consumes(s, buf);
            let t = step_spec(s, buf).unwrap();
            lemma_advance_leaves(t.next, buf.skip(t.consumed as int));
        }
    }
}

/// A pass leads from a well-formed state to a well-formed state.
pub proof fn lemma_advance_well_formed(s: StateView, buf: Seq<u8>)
    requires
        s.well_formed(),
    ensures
        advance_spec(s, buf).state.well_formed(),
    decreases buf.len(), rank(s.proc_state),
{
    if !(s.proc_state == ProcState::Done || buf.len() < 512) {
        if step_spec(s, buf).is_ok() {
            lemma_step_consumes(s, buf);
            lemma_step_well_formed(s, buf);
            let t = step_spec(s, buf).unwrap();
            lemma_advance_well_formed(t.next, buf.skip(t.consumed as int));
        }
    }
}

/// The offset before which no entry that is emitted from state `s` on can
/// begin: where the entry in progress began, or, while the content of a file
/// is skipped, where that content ends.
pub open spec fn next_entry_begin(s: StateView) -> int {
    match s.proc_state {
        ProcState::SkipFileContent(remaining) => s.offset + remaining,
        _ => s.entry_begin as int,
    }
}

/// The entry that a transition emits has its offsets in order, begins where
/// the state says, and ends before the next one can begin.
pub proof fn lemma_step_emits(s: StateView, buf: Seq<u8>)
    requires
        s.well_formed(),
        s.proc_state != ProcState::Done,
        buf.len() >= 512,
        step_spec(s, buf).is_ok(),
    ensures
        next_entry_begin(s) <= next_entry_begin(step_spec(s, buf).unwrap().next),
        match step_spec(s, buf).unwrap().emitted {
            Some(entry) => {
                &&& entry.well_formed()
                &&& entry.header_begin == next_entry_begin(s)
                &&& entry.data_end <= next_entry_begin(step_spec(s, buf).unwrap().next)
            },
            None => true,
        },
{
    match s.proc_state {
        ProcState::ReadLongName(remaining) => {
            lemma_padding_bound(s.long_name.len() + remaining as nat);
        },
        ProcState::ParseHeader => {
            if size_of(buf).is_ok() {
                lemma_padding_bound(size_of(buf).unwrap() as nat);
            }
        },
        _ => {},
    }
}

/// Whether `entries` lie in the archive one after the other, from `begin`
/// on: each has its offsets in order, and none begins before `begin` or before
/// the one before it ends.
pub open spec fn in_archive_order(entries: Seq<EntryView>, begin: int) -> bool {
    &&& forall|i: int| 0 <= i < entries.len() ==> (#[trigger] entries[i]).well_formed()
    &&& forall|i: int| 0 <= i < entries.len() ==> begin <= (#[trigger] entries[i]).header_begin
    &&& forall|i: int, j: int|
        0 <= i < j < entries.len() ==> (#[trigger] entries[i]).data_end <= (
        #[trigger] entries[j]).header_begin
}

/// The entries of a pass are emitted in the order of the archive: every
/// entry has `header_begin <= data_begin <= data_end`, and each begins at or
/// after the end of the one before it.
pub proof fn lemma_entries_in_order(s: StateView, buf: Seq<u8>)
    requires
        s.well_formed(),
    ensures
        in_archive_order(advance_spec(s, buf).entries, next_entry_begin(s)),
    decreases buf.len(), rank(s.proc_state),
{
    if !(s.proc_state == ProcState::Done || buf.len() < 512) {
        if step_spec(s, buf).is_ok() {
            lemma_step_consumes(s, buf);
            lemma_step_well_formed(s, buf);
            lemma_step_emits(s, buf);
            let t = step_spec(s, buf).unwrap();
            lemma_entries_in_order(t.next, buf.skip(t.consumed as int));
            let rest = advance_spec(t.next, buf.skip(t.consumed as int)).entries;
            let all = advance_spec(s, buf).entries;
            assert(all == emitted_entries(t.emitted) + rest);
            match t.emitted {
                Some(entry) => {
                    assert(all[0] == entry);
                    assert forall|i: int| 1 <= i < all.len() implies all[i] == rest[i - 1] by {}
                    assert forall|i: int| 0 <= i < all.len() implies (#[trigger] all[i]).well_formed()
                        && next_entry_begin(s) <= all[i].header_begin by {
                        if i > 0 {
                            assert(all[i] == rest[i - 1]);
                        }
                    }
                    assert forall|i: int, j: int| 0 <= i < j < all.len() implies (
                    #[trigger] all[i]).data_end <= (#[trigger] all[j]).header_begin by {
                        assert(all[j] == rest[j - 1]);
                        if i > 0 {
                            assert(all[i] == rest[i - 1]);
                        }
                    }
                },
                None => {
                    assert(all =~= rest);
                },
            }
        }
    }
}

/// The text of the index that records `entries`: their lines in order, each
/// closed by a line feed.
pub open spec fn index_text(entries: Seq<EntryView>) -> Seq<u8>
    decreases entries.len(),
{
    if entries.len() == 0 {
        Seq::empty()
    } else {
        index_text(entries.drop_last()) + entry_line(entries.last()) + seq![LINE_FEED]
    }
}

/// The text of two runs of entries is the text of the first followed by the
/// text of the second.
pub proof fn lemma_index_text_concat(a: Seq<EntryView>, b: Seq<EntryView>)
    ensures
        index_text(a + b) == index_text(a) + index_text(b),
    decreases b.len(),
{
    if b.len() == 0 {
        assert(a + b =~= a);
        assert(index_text(a) + index_text(b) =~= index_text(a));
    } else {
        lemma_index_text_concat(a, b.drop_last());
        assert((a + b).drop_last() =~= a + b.drop_last());
        assert((a + b).last() == b.last());
        assert(index_text(a + b) =~= index_text(a) + index_text(b));
    }
}

/// The text of a transition's entry is its line and a line feed, or empty.
pub proof fn lemma_index_text_emitted(emitted: Option<EntryView>)
    ensures
        index_text(emitted_entries(emitted)) == match emitted {
            Some(entry) => entry_line(entry) + seq![LINE_FEED],
            None => Seq::empty(),
        },
{
    match emitted {
        Some(entry) => {
            let one = seq![entry];
            assert(one.drop_last() =~= Seq::<EntryView>::empty());
            assert(index_text(one.drop_last()) =~= Seq::<u8>::empty());
            assert(one.last() == entry);
            assert(index_text(one) =~= entry_line(entry) + seq![LINE_FEED]);
        },
        None => {},
    }
}

/// What indexing a whole archive gives: the entries up to the end-of-archive
/// marker, or up to the first failure. An archive that stops before its
/// marker is complete fails as truncated. Bytes after the marker are ignored.
pub open spec fn index_spec(archive: Seq<u8>) -> (Seq<EntryView>, Result<(), FormatError>) {
    let whole = advance_spec(StateView::initial(), archive);
    (
        whole.entries,
        match whole.failure {
            Some(e) => Err(e),
            None => if whole.state.proc_state == ProcState::Done {
                Ok(())
            } else {
                Err(FormatError::Truncated)
            },
        },
    )
}

} // verus!
