//! The streaming indexer: a state machine that walks an archive which
//! arrives in pieces of any size, and writes one index line per entry.

use vstd::prelude::*;
use vstd::slice::slice_subrange;
use crate::error::FormatError;
use crate::index::{entry_line, push_entry_line, EntryType, EntryView, LINE_FEED};
use crate::tar::{
    blocks_for, bytes_to_blocks, is_zero_block, parse_format, parse_name, parse_size,
    parse_type_flag, Format, TypeFlag, BLOCK_SIZE,
};
use crate::transitions::{
    advance_spec, effective_name, emitted_entries, end_of_archive_spec, index_spec, index_text,
    lemma_index_text_concat, lemma_index_text_emitted, lemma_padding_bound, lemma_step_consumes,
    parse_header_spec, rank, read_long_name_spec, skip_file_content_spec, step_spec, trimmed,
    Progress, StateView, Transition,
};

verus! {

/// What the indexer expects next in the archive.
#[derive(PartialEq, Eq, Structural, Clone, Copy, Debug)]
pub enum ProcState {
    /// A header block.
    ParseHeader,
    /// This many more bytes of a long name, then its padding.
    ReadLongName(usize),
    /// This many more bytes of file content, padding included.
    SkipFileContent(usize),
    /// The second block of the end-of-archive marker.
    EndOfArchive,
    /// Nothing: the archive is complete.
    Done,
}

/// All that the indexer keeps between two pieces of the archive.
pub struct State {
    proc_state: ProcState,
    offset: usize,
    entry_begin: usize,
    long_name: Vec<u8>,
}

impl View for State {
    type V = StateView;

    closed spec fn view(&self) -> StateView {
        StateView {
            proc_state: self.proc_state,
            offset: self.offset,
            entry_begin: self.entry_begin,
            long_name: self.long_name@,
        }
    }
}

impl State {
    /// Whether the state is one that the indexer can be in.
    pub open spec fn wf(&self) -> bool {
        self@.well_formed()
    }

    /// The state before the first byte of an archive.
    pub fn new() -> (state: State)
        ensures
            state@ == StateView::initial(),
            state.wf(),
    {
        State {
            proc_state: ProcState::ParseHeader,
            offset: 0,
            entry_begin: 0,
            long_name: Vec::new(),
        }
    }
}

/// Whether `result` and the state and output after a call are what the
/// transition `expected` asks for, or, where it failed, the failure and the
/// state and output as they were.
pub open spec fn follows(
    expected: Result<Transition, FormatError>,
    result: Result<usize, FormatError>,
    before: StateView,
    after: StateView,
    out_before: Seq<u8>,
    out_after: Seq<u8>,
) -> bool {
    match expected {
        Ok(t) => {
            &&& result == Ok::<usize, FormatError>(t.consumed as usize)
            &&& t.consumed <= usize::MAX
            &&& after == t.next
            &&& out_after == out_before + index_text(emitted_entries(t.emitted))
        },
        Err(e) => {
            &&& result == Err::<usize, FormatError>(e)
            &&& after == before
            &&& out_after == out_before
        },
    }
}

/// `name` without its trailing NUL bytes.
pub fn trim_nuls(name: &[u8]) -> (short: &[u8])
    ensures
        short@ == trimmed(name@),
{
    let mut len = name.len();
    assert(name@.take(len as int) =~= name@);
    while len > 0 && name[len - 1] == 0
        invariant
            len <= name@.len(),
            trimmed(name@) == trimmed(name@.take(len as int)),
        decreases len,
    {
        assert(name@.take(len as int).drop_last() =~= name@.take(len - 1));
        len = len - 1;
    }
    slice_subrange(name, 0, len)
}

/// Where the content that a header at `offset` announces begins, and how
/// many bytes it takes with its padding; nothing if the content would end
/// beyond the largest offset.
fn content_span(offset: usize, size: usize) -> (span: Option<(usize, usize)>)
    ensures
        span.is_some() == (offset + 512 + blocks_for(size as nat) * 512 <= usize::MAX),
        span.is_some() ==> span.unwrap().0 == offset + 512 && span.unwrap().1 == blocks_for(
            size as nat,
        ) * 512,
{
    let data_begin = match offset.checked_add(BLOCK_SIZE) {
        Some(sum) => sum,
        None => {
            return None;
        },
    };
    let padded = match bytes_to_blocks(size).checked_mul(BLOCK_SIZE) {
        Some(product) => product,
        None => {
            return None;
        },
    };
    match data_begin.checked_add(padded) {
        Some(_) => Some((data_begin, padded)),
        None => None,
    }
}

/// Handles the header block at the start of `buf`: emits the line of the
/// file or directory that it announces, and says what comes next.
pub fn parse_header(state: &mut State, buf: &[u8], out: &mut Vec<u8>) -> (result: Result<
    usize,
    FormatError,
>)
    requires
        old(state).wf(),
        old(state)@.proc_state == ProcState::ParseHeader,
        buf@.len() >= BLOCK_SIZE,
    ensures
        final(state).wf(),
        follows(
            parse_header_spec(old(state)@, buf@),
            result,
            old(state)@,
            final(state)@,
            old(out)@,
            final(out)@,
        ),
{
    let ghost out_before = out@;
    proof {
        lemma_index_text_emitted(None);
        assert(out_before + Seq::<u8>::empty() =~= out_before);
    }
    if parse_format(buf) != Format::Gnu {
        if !is_zero_block(buf) {
            return Err(FormatError::UnsupportedFormat);
        }
        return match state.offset.checked_add(BLOCK_SIZE) {
            Some(next) => {
                state.offset = next;
                state.proc_state = ProcState::EndOfArchive;
                Ok(BLOCK_SIZE)
            },
            None => Err(FormatError::OffsetOverflow),
        };
    }
    let type_flag = parse_type_flag(buf);
    match type_flag {
        TypeFlag::Unsupported(c) => Err(FormatError::UnsupportedBlockType(c)),
        TypeFlag::GnuLongPathName => {
            let len = match parse_size(buf) {
                Ok(len) => len,
                Err(e) => {
                    return Err(e);
                },
            };
            match content_span(state.offset, len) {
                Some((data_begin, _)) => {
                    state.offset = data_begin;
                    state.long_name.clear();
                    state.proc_state = ProcState::ReadLongName(len);
                    Ok(BLOCK_SIZE)
                },
                None => Err(FormatError::OffsetOverflow),
            }
        },
        TypeFlag::RegularFile => {
            let size = match parse_size(buf) {
                Ok(size) => size,
                Err(e) => {
                    return Err(e);
                },
            };
            match content_span(state.offset, size) {
                Some((data_begin, skip_len)) => {
                    let ghost entry = EntryView {
                        header_begin: state.entry_begin,
                        data_begin,
                        data_end: (data_begin + size) as usize,
                        etype: EntryType::File,
                        name: effective_name(state.long_name@, buf@),
                    };
                    emit(state, buf, out, data_begin, data_begin + size, EntryType::File);
                    proof {
                        lemma_index_text_emitted(Some(entry));
                        assert(out@ =~= out_before + (entry_line(entry) + seq![LINE_FEED]));
                    }
                    state.offset = data_begin;
                    state.long_name.clear();
                    state.proc_state = ProcState::SkipFileContent(skip_len);
                    Ok(BLOCK_SIZE)
                },
                None => Err(FormatError::OffsetOverflow),
            }
        },
        TypeFlag::Directory => {
            match state.offset.checked_add(BLOCK_SIZE) {
                Some(data_begin) => {
                    let ghost entry = EntryView {
                        header_begin: state.entry_begin,
                        data_begin,
                        data_end: data_begin,
                        etype: EntryType::Directory,
                        name: effective_name(state.long_name@, buf@),
                    };
                    emit(state, buf, out, data_begin, data_begin, EntryType::Directory);
                    proof {
                        lemma_index_text_emitted(Some(entry));
                        assert(out@ =~= out_before + (entry_line(entry) + seq![LINE_FEED]));
                    }
                    state.offset = data_begin;
                    state.entry_begin = data_begin;
                    state.long_name.clear();
                    state.proc_state = ProcState::ParseHeader;
                    Ok(BLOCK_SIZE)
                },
                None => Err(FormatError::OffsetOverflow),
            }
        },
    }
}

/// Writes the line of the entry that the header block at the start of `buf`
/// announces, with a line feed.
fn emit(
    state: &State,
    buf: &[u8],
    out: &mut Vec<u8>,
    data_begin: usize,
    data_end: usize,
    etype: EntryType,
)
    requires
        buf@.len() >= BLOCK_SIZE,
    ensures
        final(out)@ == old(out)@ + entry_line(
            (EntryView {
                header_begin: state@.entry_begin,
                data_begin,
                data_end,
                etype,
                name: effective_name(state@.long_name, buf@),
            }),
        ) + seq![LINE_FEED],
{
    let name = if state.long_name.len() > 0 {
        trim_nuls(state.long_name.as_slice())
    } else {
        trim_nuls(parse_name(buf))
    };
    push_entry_line(out, state.entry_begin, data_begin, data_end, etype, name);
    out.push(LINE_FEED);
}

/// Takes from `buf` what it holds of the long name in progress, and the
/// name's padding once both are there in full.
pub fn read_long_name(state: &mut State, buf: &[u8]) -> (consumed: usize)
    requires
        old(state).wf(),
        old(state)@.proc_state is ReadLongName,
    ensures
        final(state).wf(),
        consumed == read_long_name_spec(
            old(state)@,
            old(state)@.proc_state->ReadLongName_0,
            buf@,
        ).consumed,
        final(state)@ == read_long_name_spec(
            old(state)@,
            old(state)@.proc_state->ReadLongName_0,
            buf@,
        ).next,
{
    let remaining = match state.proc_state {
        ProcState::ReadLongName(remaining) => remaining,
        _ => 0,
    };
    proof {
        lemma_padding_bound(state.long_name@.len() + remaining as nat);
    }
    let ghost before = state.long_name@;
    let total = state.long_name.len() + remaining;
    let padding = bytes_to_blocks(total) * BLOCK_SIZE - total;
    if buf.len() >= remaining && buf.len() - remaining >= padding {
        state.long_name.extend_from_slice(slice_subrange(buf, 0, remaining));
        assert(state.long_name@ =~= before + buf@.take(remaining as int));
        state.offset = state.offset + remaining + padding;
        state.proc_state = ProcState::ParseHeader;
        remaining + padding
    } else {
        let taken = if remaining <= buf.len() {
            remaining
        } else {
            buf.len()
        };
        state.long_name.extend_from_slice(slice_subrange(buf, 0, taken));
        assert(state.long_name@ =~= before + buf@.take(taken as int));
        state.offset = state.offset + taken;
        state.proc_state = ProcState::ReadLongName(remaining - taken);
        taken
    }
}

/// Skips what `buf` holds of the file content in progress.
pub fn skip_file_content(state: &mut State, buf: &[u8]) -> (consumed: usize)
    requires
        old(state).wf(),
        old(state)@.proc_state is SkipFileContent,
    ensures
        final(state).wf(),
        consumed == skip_file_content_spec(
            old(state)@,
            old(state)@.proc_state->SkipFileContent_0,
            buf@.len(),
        ).consumed,
        final(state)@ == skip_file_content_spec(
            old(state)@,
            old(state)@.proc_state->SkipFileContent_0,
            buf@.len(),
        ).next,
{
    let remaining = match state.proc_state {
        ProcState::SkipFileContent(remaining) => remaining,
        _ => 0,
    };
    if buf.len() < remaining {
        state.offset = state.offset + buf.len();
        state.proc_state = ProcState::SkipFileContent(remaining - buf.len());
        buf.len()
    } else {
        state.offset = state.offset + remaining;
        state.entry_begin = state.offset;
        state.proc_state = ProcState::ParseHeader;
        remaining
    }
}

/// Checks the block at the start of `buf` to be the second all-zero block
/// of the end-of-archive marker.
pub fn end_of_archive(state: &mut State, buf: &[u8]) -> (result: Result<usize, FormatError>)
    requires
        old(state).wf(),
        old(state)@.proc_state == ProcState::EndOfArchive,
        buf@.len() >= BLOCK_SIZE,
    ensures
        final(state).wf(),
        follows(
            end_of_archive_spec(old(state)@, buf@),
            result,
            old(state)@,
            final(state)@,
            Seq::empty(),
            Seq::empty(),
        ),
{
    if !is_zero_block(buf) {
        return Err(FormatError::LoneZeroBlock);
    }
    match state.offset.checked_add(BLOCK_SIZE) {
        Some(next) => {
            state.offset = next;
            state.proc_state = ProcState::Done;
            Ok(BLOCK_SIZE)
        },
        None => Err(FormatError::OffsetOverflow),
    }
}

impl State {
    /// What the indexer expects next.
    pub fn proc_state(&self) -> (proc_state: ProcState)
        ensures
            proc_state == self@.proc_state,
    {
        self.proc_state
    }

    /// Number of archive bytes consumed so far.
    pub fn offset(&self) -> (offset: usize)
        ensures
            offset == self@.offset,
    {
        self.offset
    }

    /// Whether the end-of-archive marker has been read in full.
    pub fn is_done(&self) -> (done: bool)
        ensures
            done == (self@.proc_state == ProcState::Done),
    {
        match self.proc_state {
            ProcState::Done => true,
            _ => false,
        }
    }
}

/// Makes the one transition that the state asks for on the buffer `buf`.
pub fn step(state: &mut State, buf: &[u8], out: &mut Vec<u8>) -> (result: Result<
    usize,
    FormatError,
>)
    requires
        old(state).wf(),
        buf@.len() >= BLOCK_SIZE,
    ensures
        final(state).wf(),
        follows(
            step_spec(old(state)@, buf@),
            result,
            old(state)@,
            final(state)@,
            old(out)@,
            final(out)@,
        ),
{
    proof {
        lemma_index_text_emitted(None);
        assert(out@ + Seq::<u8>::empty() =~= out@);
    }
    match state.proc_state {
        ProcState::ParseHeader => parse_header(state, buf, out),
        ProcState::ReadLongName(remaining) => {
            proof {
                lemma_padding_bound(state@.long_name.len() + remaining as nat);
            }
            Ok(read_long_name(state, buf))
        },
        ProcState::SkipFileContent(_) => Ok(skip_file_content(state, buf)),
        ProcState::EndOfArchive => end_of_archive(state, buf),
        ProcState::Done => Ok(0),
    }
}

/// Whether the pass `whole` over `buf` amounts to the entries `emitted`
/// and `consumed` bytes so far, followed by a pass from state `s` over the
/// rest of `buf`.
pub open spec fn pass_continues(
    whole: Progress,
    emitted: Seq<EntryView>,
    consumed: nat,
    s: StateView,
    buf: Seq<u8>,
) -> bool {
    let rest = advance_spec(s, buf.skip(consumed as int));
    &&& consumed <= buf.len()
    &&& whole.state == rest.state
    &&& whole.consumed == consumed + rest.consumed
    &&& whole.entries == emitted + rest.entries
    &&& whole.failure == rest.failure
}

/// A pass that continues from a state in which a transition is possible
/// continues after that transition.
proof fn lemma_pass_continues(
    whole: Progress,
    emitted: Seq<EntryView>,
    consumed: nat,
    s: StateView,
    buf: Seq<u8>,
)
    requires
        pass_continues(whole, emitted, consumed, s, buf),
        s.proc_state != ProcState::Done,
        buf.len() - consumed >= 512,
    ensures
        match step_spec(s, buf.skip(consumed as int)) {
            Err(e) => whole == (Progress {
                state: s,
                consumed,
                entries: emitted,
                failure: Some(e),
            }),
            Ok(t) => {
                &&& consumed + t.consumed <= buf.len()
                &&& t.consumed == 0 ==> rank(s.proc_state) == 1 && rank(t.next.proc_state) == 0
                &&& pass_continues(
                    whole,
                    emitted + emitted_entries(t.emitted),
                    consumed + t.consumed,
                    t.next,
                    buf,
                )
                &&& index_text(emitted + emitted_entries(t.emitted)) == index_text(emitted)
                    + index_text(emitted_entries(t.emitted))
            },
        },
{
    let rest = buf.skip(consumed as int);
    match step_spec(s, rest) {
        Err(e) => {
            assert(emitted + Seq::<EntryView>::empty() =~= emitted);
        },
        Ok(t) => {
            lemma_step_consumes(s, rest);
            assert(rest.skip(t.consumed as int) =~= buf.skip((consumed + t.consumed) as int));
            let tail = advance_spec(t.next, rest.skip(t.consumed as int));
            assert(whole.entries =~= (emitted + emitted_entries(t.emitted)) + tail.entries);
            lemma_index_text_concat(emitted, emitted_entries(t.emitted));
        },
    }
}

/// A pass that cannot continue has achieved what it has so far.
proof fn lemma_pass_ends(
    whole: Progress,
    emitted: Seq<EntryView>,
    consumed: nat,
    s: StateView,
    buf: Seq<u8>,
)
    requires
        pass_continues(whole, emitted, consumed, s, buf),
        s.proc_state == ProcState::Done || buf.len() - consumed < 512,
    ensures
        whole == (Progress { state: s, consumed, entries: emitted, failure: None }),
{
    assert(emitted + Seq::<EntryView>::empty() =~= emitted);
}

/// Indexes what `buf` holds of the archive, in one pass: writes the lines of
/// the entries whose headers it holds in full to `out`, and returns the number
/// of bytes of `buf` that are dealt with. The bytes after them, less than one
/// block unless the archive is complete, are to be handed in again at the start
/// of the next buffer.
pub fn advance(state: &mut State, buf: &[u8], out: &mut Vec<u8>) -> (result: Result<
    usize,
    FormatError,
>)
    requires
        old(state).wf(),
    ensures
        final(state).wf(),
        final(state)@ == advance_spec(old(state)@, buf@).state,
        final(out)@ == old(out)@ + index_text(advance_spec(old(state)@, buf@).entries),
        match result {
            Ok(consumed) => advance_spec(old(state)@, buf@).failure.is_none() && consumed
                == advance_spec(old(state)@, buf@).consumed,
            Err(e) => advance_spec(old(state)@, buf@).failure == Some(e),
        },
{
    let ghost whole = advance_spec(state@, buf@);
    let ghost mut emitted: Seq<EntryView> = Seq::empty();
    let mut consumed: usize = 0;
    proof {
        assert(buf@.skip(0) =~= buf@);
        assert(emitted + whole.entries =~= whole.entries);
        assert(out@ + index_text(emitted) =~= out@);
    }
    loop
        invariant
            state.wf(),
            whole == advance_spec(old(state)@, buf@),
            out@ == old(out)@ + index_text(emitted),
            pass_continues(whole, emitted, consumed as nat, state@, buf@),
        decreases buf@.len() - consumed, rank(state@.proc_state),
    {
        if state.is_done() || buf.len() - consumed < BLOCK_SIZE {
            proof {
                lemma_pass_ends(whole, emitted, consumed as nat, state@, buf@);
            }
            return Ok(consumed);
        }
        let rest = slice_subrange(buf, consumed, buf.len());
        proof {
            assert(rest@ =~= buf@.skip(consumed as int));
            lemma_pass_continues(whole, emitted, consumed as nat, state@, buf@);
        }
        let ghost expected = step_spec(state@, rest@);
        match step(state, rest, out) {
            Err(e) => {
                return Err(e);
            },
            Ok(taken) => {
                proof {
                    let t = expected.unwrap();
                    assert(out@ =~= old(out)@ + (index_text(emitted) + index_text(
                        emitted_entries(t.emitted),
                    )));
                    emitted = emitted + emitted_entries(t.emitted);
                }
                consumed = consumed + taken;
            },
        }
    }
}

/// Indexes a whole archive: appends to `out` one line for each of its
/// entries, in the order of the archive. On a failure the lines of the
/// entries before it stay in `out`.
pub fn index(archive: &[u8], out: &mut Vec<u8>) -> (result: Result<(), FormatError>)
    ensures
        final(out)@ == old(out)@ + index_text(index_spec(archive@).0),
        result == index_spec(archive@).1,
{
    let mut state = State::new();
    match advance(&mut state, archive, out) {
        Err(e) => Err(e),
        Ok(_) => if state.is_done() {
            Ok(())
        } else {
            Err(FormatError::Truncated)
        },
    }
}

} // verus!
