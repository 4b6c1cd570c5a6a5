//! Indexing an archive that arrives in chunks, and the proof that the way
//! in which it is cut into chunks does not show in the index.

use vstd::prelude::*;
use crate::error::FormatError;
use crate::index::EntryView;
use crate::tar::{format_of, is_zero, size_of};
use crate::tar_stream::{advance, ProcState, State};
use crate::transitions::{
    advance_spec, emitted_entries, end_of_archive_spec, index_spec, index_text,
    lemma_advance_leaves, lemma_advance_well_formed, lemma_padding_bound, lemma_step_consumes,
    lemma_step_well_formed, no_progress, padding_for, parse_header_spec, rank,
    read_long_name_spec, skip_file_content_spec, step_spec, Progress, StateView, Transition,
};

verus! {

/// What a header block says does not depend on what follows the block.
pub proof fn lemma_block_prefix(a: Seq<u8>, b: Seq<u8>)
    requires
        a.len() >= 512,
    ensures
        format_of(a + b) == format_of(a),
        is_zero(a + b) == is_zero(a),
        (a + b)[156] == a[156],
        size_of(a + b) == size_of(a),
        (a + b).subrange(0, 100) == a.subrange(0, 100),
{
    assert((a + b).subrange(257, 263) =~= a.subrange(257, 263));
    assert((a + b).subrange(124, 136) =~= a.subrange(124, 136));
    assert((a + b).subrange(0, 100) =~= a.subrange(0, 100));
    assert forall|i: int| 0 <= i < 512 implies (a + b)[i] == a[i] by {}
}

/// The transition on a header block does not depend on what follows the
/// block.
pub proof fn lemma_parse_header_prefix(s: StateView, a: Seq<u8>, b: Seq<u8>)
    requires
        a.len() >= 512,
    ensures
        parse_header_spec(s, a + b) == parse_header_spec(s, a),
        end_of_archive_spec(s, a + b) == end_of_archive_spec(s, a),
{
    lemma_block_prefix(a, b);
}

/// Whether the pass `whole` over a buffer amounts to the pass `first` over
/// the buffer's beginning followed by the pass `second` over what `first` left
/// of it and the buffer's end: the same entries, the same failure or none, and
/// the archive complete in both or in neither.
pub open spec fn amounts_to(whole: Progress, first: Progress, second: Progress) -> bool {
    &&& whole.entries == first.entries + second.entries
    &&& whole.failure == second.failure
    &&& (whole.state.proc_state == ProcState::Done) == (second.state.proc_state
        == ProcState::Done)
}

/// The pass that follows a first pass over `a` once `b` has arrived: it
/// starts in the state that the first pass reached, on what the first pass
/// left of `a`, followed by `b`.
pub open spec fn second_pass(s: StateView, a: Seq<u8>, b: Seq<u8>) -> Progress {
    let first = advance_spec(s, a);
    advance_spec(first.state, a.skip(first.consumed as int) + b)
}

/// Whether one pass over `a + b` gives what a pass over `a` and then, unless
/// that one failed, a pass over the rest and `b` give.
pub open spec fn split_agrees(s: StateView, a: Seq<u8>, b: Seq<u8>) -> bool {
    let first = advance_spec(s, a);
    let whole = advance_spec(s, a + b);
    if first.failure.is_some() {
        whole.entries == first.entries && whole.failure == first.failure
    } else {
        amounts_to(whole, first, second_pass(s, a, b))
    }
}

/// Content that is skipped in two parts is skipped as it is in one.
proof fn lemma_split_skip(s: StateView, remaining: usize, a: Seq<u8>, b: Seq<u8>)
    requires
        s.well_formed(),
        s.proc_state == ProcState::SkipFileContent(remaining),
        a.len() >= 512,
        remaining > a.len(),
    ensures
        split_agrees(s, a, b),
{
    let t_a = skip_file_content_spec(s, remaining, a.len());
    let first = advance_spec(s, a);
    assert(a.skip(a.len() as int).len() == 0);
    assert(advance_spec(t_a.next, a.skip(a.len() as int)) == no_progress(t_a.next));
    assert(first.state == t_a.next);
    assert(first.consumed == a.len());
    assert(first.entries =~= Seq::<EntryView>::empty());
    assert(a.skip(a.len() as int) + b =~= b);
    let second = advance_spec(t_a.next, b);
    assert(second == second_pass(s, a, b));
    let t_ab = skip_file_content_spec(s, remaining, (a + b).len());
    let whole = advance_spec(s, a + b);
    let whole_rest = advance_spec(t_ab.next, (a + b).skip(t_ab.consumed as int));
    assert(whole.entries =~= whole_rest.entries);
    if b.len() < 512 {
        assert(second == no_progress(t_a.next));
        assert((a + b).skip(t_ab.consumed as int).len() < 512);
        assert(whole_rest == no_progress(t_ab.next));
    } else {
        let t_b = skip_file_content_spec(t_a.next, (remaining - a.len()) as usize, b.len());
        assert(t_b.next == t_ab.next);
        assert((a + b).skip(t_ab.consumed as int) =~= b.skip(t_b.consumed as int));
        let second_rest = advance_spec(t_b.next, b.skip(t_b.consumed as int));
        assert(second.entries =~= second_rest.entries);
    }
    assert(whole.entries =~= first.entries + second.entries);
}

/// Reading a long name from `a`, which does not hold all of it and its
/// padding, and then from the rest of `a` followed by `b`, leads to the state
/// that reading it from `a + b` leads to, and consumes as much.
proof fn lemma_long_name_in_two(s: StateView, remaining: usize, a: Seq<u8>, b: Seq<u8>)
    requires
        s.well_formed(),
        s.proc_state == ProcState::ReadLongName(remaining),
        a.len() < remaining + padding_for(s.long_name.len() + remaining as nat),
    ensures
        ({
            let t_a = read_long_name_spec(s, remaining, a);
            let left = (remaining - t_a.consumed) as usize;
            let rest_a = a.skip(t_a.consumed as int);
            let t_b = read_long_name_spec(t_a.next, left, rest_a + b);
            let t_ab = read_long_name_spec(s, remaining, a + b);
            &&& t_a.consumed <= a.len()
            &&& t_a.consumed <= remaining
            &&& rest_a.len() < 512
            &&& t_a.next.proc_state == ProcState::ReadLongName(left)
            &&& t_a.next.well_formed()
            &&& t_b.next == t_ab.next
            &&& t_ab.consumed == t_a.consumed + t_b.consumed
            &&& t_ab.consumed <= a.len() + b.len()
            &&& t_ab.emitted.is_none() && t_a.emitted.is_none() && t_b.emitted.is_none()
            &&& t_ab.next.proc_state != ProcState::Done
        }),
{
    let total = s.long_name.len() + remaining as nat;
    let padding = padding_for(total);
    lemma_padding_bound(total);
    let t_a = read_long_name_spec(s, remaining, a);
    let taken = t_a.consumed;
    let left = (remaining - taken) as usize;
    let rest_a = a.skip(taken as int);
    let t_b = read_long_name_spec(t_a.next, left, rest_a + b);
    let t_ab = read_long_name_spec(s, remaining, a + b);
    assert(t_a.next.long_name.len() + left as nat == total);
    if (a + b).len() >= remaining + padding {
        assert(t_b.consumed == left + padding);
        assert(s.long_name + (a + b).take(remaining as int) =~= (s.long_name + a.take(
            taken as int,
        )) + (rest_a + b).take(left as int));
    } else {
        let more = t_b.consumed;
        assert(t_ab.consumed == taken + more);
        assert(s.long_name + (a + b).take((taken + more) as int) =~= (s.long_name + a.take(taken as int))
            + (rest_a + b).take(more as int));
    }
}

/// A long name that is read in two parts is read as it is in one.
proof fn lemma_split_long_name(s: StateView, remaining: usize, a: Seq<u8>, b: Seq<u8>)
    requires
        s.well_formed(),
        s.proc_state == ProcState::ReadLongName(remaining),
        a.len() >= 512,
        a.len() < remaining + padding_for(s.long_name.len() + remaining as nat),
    ensures
        split_agrees(s, a, b),
{
    lemma_long_name_in_two(s, remaining, a, b);
    let t_a = read_long_name_spec(s, remaining, a);
    let taken = t_a.consumed;
    let left = (remaining - taken) as usize;
    let rest_a = a.skip(taken as int);
    let t_b = read_long_name_spec(t_a.next, left, rest_a + b);
    let t_ab = read_long_name_spec(s, remaining, a + b);
    let first = advance_spec(s, a);
    assert(step_spec(s, a) == Ok::<Transition, FormatError>(t_a));
    assert(advance_spec(t_a.next, rest_a) == no_progress(t_a.next));
    assert(first.state == t_a.next);
    assert(first.consumed == taken);
    assert(first.entries =~= Seq::<EntryView>::empty());
    let second = advance_spec(t_a.next, rest_a + b);
    assert(second == second_pass(s, a, b));
    let whole = advance_spec(s, a + b);
    assert(step_spec(s, a + b) == Ok::<Transition, FormatError>(t_ab));
    let whole_left = (a + b).skip(t_ab.consumed as int);
    let whole_rest = advance_spec(t_ab.next, whole_left);
    assert(whole.entries =~= whole_rest.entries);
    assert(whole.failure == whole_rest.failure);
    assert(whole.state == whole_rest.state);
    if (rest_a + b).len() < 512 {
        assert(second == no_progress(t_a.next));
        assert(whole_left.len() < 512);
        assert(whole_rest == no_progress(t_ab.next));
    } else {
        assert(step_spec(t_a.next, rest_a + b) == Ok::<Transition, FormatError>(t_b));
        assert(whole_left =~= (rest_a + b).skip(t_b.consumed as int));
        let second_rest = advance_spec(t_b.next, (rest_a + b).skip(t_b.consumed as int));
        assert(second.entries =~= second_rest.entries);
        assert(second.failure == second_rest.failure);
        assert(second.state == second_rest.state);
    }
    assert(whole.entries =~= first.entries + second.entries);
}

/// A transition that finds all it asks for in `a` is the same on `a + b`.
proof fn lemma_step_prefix(s: StateView, a: Seq<u8>, b: Seq<u8>)
    requires
        a.len() >= 512,
        match s.proc_state {
            ProcState::SkipFileContent(remaining) => remaining <= a.len(),
            ProcState::ReadLongName(remaining) => a.len() >= remaining + padding_for(
                s.long_name.len() + remaining as nat,
            ),
            _ => true,
        },
    ensures
        step_spec(s, a + b) == step_spec(s, a),
{
    lemma_parse_header_prefix(s, a, b);
    match s.proc_state {
        ProcState::ReadLongName(remaining) => {
            assert((a + b).take(remaining as int) =~= a.take(remaining as int));
        },
        _ => {},
    }
}

/// Where the first transition is the same on `a` and on `a + b`, and the
/// passes that follow it agree, the passes from the start agree.
proof fn lemma_split_after_step(s: StateView, a: Seq<u8>, b: Seq<u8>, t: Transition)
    requires
        s.proc_state != ProcState::Done,
        a.len() >= 512,
        step_spec(s, a) == Ok::<Transition, FormatError>(t),
        step_spec(s, a + b) == Ok::<Transition, FormatError>(t),
        t.consumed <= a.len(),
        split_agrees(t.next, a.skip(t.consumed as int), b),
    ensures
        split_agrees(s, a, b),
{
    let first = advance_spec(s, a);
    let whole = advance_spec(s, a + b);
    let a_rest = a.skip(t.consumed as int);
    assert((a + b).skip(t.consumed as int) =~= a_rest + b);
    let first_rest = advance_spec(t.next, a_rest);
    let whole_rest = advance_spec(t.next, a_rest + b);
    lemma_advance_leaves(t.next, a_rest);
    assert(first.consumed == t.consumed + first_rest.consumed);
    assert(first.state == first_rest.state);
    assert(first.failure == first_rest.failure);
    assert(first.entries == emitted_entries(t.emitted) + first_rest.entries);
    assert(whole.entries == emitted_entries(t.emitted) + whole_rest.entries);
    assert(whole.failure == whole_rest.failure);
    assert(whole.state == whole_rest.state);
    assert(a_rest.skip(first_rest.consumed as int) =~= a.skip(first.consumed as int));
    if first.failure.is_some() {
        assert(whole.entries =~= first.entries);
    } else {
        let second = second_pass(s, a, b);
        assert(second == second_pass(t.next, a_rest, b));
        assert(whole.entries =~= first.entries + second.entries);
    }
}

/// One pass over a buffer gives what two passes give, the first over the
/// buffer's beginning `a` and the second over what the first left of it
/// followed by the buffer's end `b`: the same entries in the same order, and
/// the same failure, if any, or the archive complete in both or in neither.
/// This holds wherever the buffer is cut: inside a header, a long name, or
/// the content of a file.
pub proof fn lemma_split(s: StateView, a: Seq<u8>, b: Seq<u8>)
    requires
        s.well_formed(),
    ensures
        split_agrees(s, a, b),
    decreases a.len(), rank(s.proc_state),
{
    if s.proc_state == ProcState::Done || a.len() < 512 {
        let whole = advance_spec(s, a + b);
        assert(advance_spec(s, a) == no_progress(s));
        assert(a.skip(0) + b =~= a + b);
        assert(Seq::<EntryView>::empty() + whole.entries =~= whole.entries);
    } else {
        let partial_skip = match s.proc_state {
            ProcState::SkipFileContent(remaining) => remaining > a.len(),
            _ => false,
        };
        let partial_name = match s.proc_state {
            ProcState::ReadLongName(remaining) => a.len() < remaining + padding_for(
                s.long_name.len() + remaining as nat,
            ),
            _ => false,
        };
        if partial_skip {
            lemma_split_skip(s, s.proc_state->SkipFileContent_0, a, b);
        } else if partial_name {
            lemma_split_long_name(s, s.proc_state->ReadLongName_0, a, b);
        } else {
            lemma_step_prefix(s, a, b);
            match step_spec(s, a) {
                Err(e) => {},
                Ok(t) => {
                    lemma_step_consumes(s, a);
                    lemma_step_well_formed(s, a);
                    lemma_split(t.next, a.skip(t.consumed as int), b);
                    lemma_split_after_step(s, a, b, t);
                },
            }
        }
    }
}

/// An indexer for an archive that arrives in chunks of any size. It keeps,
/// besides the state of the walk, the bytes of the last chunks that no pass
/// could deal with yet.
pub struct Indexer {
    state: State,
    pending: Vec<u8>,
}

/// An indexer as a mathematical value.
pub ghost struct IndexerView {
    pub state: StateView,
    pub pending: Seq<u8>,
}

/// What feeding one chunk gives: the indexer after it, the entries that the
/// chunk completed, and the failure that ended indexing, if one did.
pub ghost struct Fed {
    pub next: IndexerView,
    pub entries: Seq<EntryView>,
    pub failure: Option<FormatError>,
}

impl IndexerView {
    /// The indexer before the first chunk.
    pub open spec fn initial() -> IndexerView {
        IndexerView { state: StateView::initial(), pending: Seq::empty() }
    }

    /// What holds of an indexer between two chunks: its state is well
    /// formed, and it holds back less than a block unless the archive is
    /// complete, when it holds back nothing.
    pub open spec fn well_formed(self) -> bool {
        &&& self.state.well_formed()
        &&& self.pending.len() < 512
        &&& self.state.proc_state == ProcState::Done ==> self.pending.len() == 0
    }

    /// Feeding `chunk`: one pass over the bytes held back followed by the
    /// chunk; what the pass leaves is held back in turn. Once the archive is
    /// complete a chunk changes nothing.
    pub open spec fn feed(self, chunk: Seq<u8>) -> Fed {
        if self.state.proc_state == ProcState::Done {
            Fed { next: self, entries: Seq::empty(), failure: None }
        } else {
            let buf = self.pending + chunk;
            let pass = advance_spec(self.state, buf);
            Fed {
                next: IndexerView {
                    state: pass.state,
                    pending: if pass.state.proc_state == ProcState::Done {
                        Seq::empty()
                    } else {
                        buf.skip(pass.consumed as int)
                    },
                },
                entries: pass.entries,
                failure: pass.failure,
            }
        }
    }

    /// Feeding `chunks` one after the other and then closing the archive:
    /// the entries of all chunks up to the first failure, and that failure; or
    /// all entries, and success if the archive is complete after the last
    /// chunk, else the failure of a truncated archive.
    pub open spec fn feed_all(self, chunks: Seq<Seq<u8>>) -> (Seq<EntryView>, Result<
        (),
        FormatError,
    >)
        decreases chunks.len(),
    {
        if chunks.len() == 0 {
            (Seq::empty(), self.finish())
        } else {
            let fed = self.feed(chunks[0]);
            match fed.failure {
                Some(e) => (fed.entries, Err(e)),
                None => {
                    let rest = fed.next.feed_all(chunks.drop_first());
                    (fed.entries + rest.0, rest.1)
                },
            }
        }
    }

    /// Closing the archive: success if it is complete, else the failure of
    /// a truncated archive.
    pub open spec fn finish(self) -> Result<(), FormatError> {
        if self.state.proc_state == ProcState::Done {
            Ok(())
        } else {
            Err(FormatError::Truncated)
        }
    }
}

/// The chunks one after the other, as one run of bytes.
pub open spec fn joined(chunks: Seq<Seq<u8>>) -> Seq<u8>
    decreases chunks.len(),
{
    if chunks.len() == 0 {
        Seq::empty()
    } else {
        chunks[0] + joined(chunks.drop_first())
    }
}

impl View for Indexer {
    type V = IndexerView;

    closed spec fn view(&self) -> IndexerView {
        IndexerView { state: self.state@, pending: self.pending@ }
    }
}

impl Indexer {
    /// Whether the indexer is one that `new` and `feed` can give.
    pub open spec fn wf(&self) -> bool {
        self@.well_formed()
    }

    /// An indexer before the first chunk.
    pub fn new() -> (indexer: Indexer)
        ensures
            indexer@ == IndexerView::initial(),
            indexer.wf(),
    {
        Indexer { state: State::new(), pending: Vec::new() }
    }

    /// Whether the end-of-archive marker has been read in full.
    pub fn is_done(&self) -> (done: bool)
        ensures
            done == (self@.state.proc_state == ProcState::Done),
    {
        self.state.is_done()
    }

    /// Number of bytes that are held back for the next chunk.
    pub fn pending_len(&self) -> (len: usize)
        ensures
            len == self@.pending.len(),
    {
        self.pending.len()
    }

    /// Takes the next chunk of the archive, and appends to `out` the lines of
    /// the entries that it completes. A failure ends indexing: the indexer is
    /// used up, and `out` keeps the lines of the entries before the failure.
    pub fn feed(self, chunk: &[u8], out: &mut Vec<u8>) -> (result: Result<Indexer, FormatError>)
        requires
            self.wf(),
        ensures
            final(out)@ == old(out)@ + index_text(self@.feed(chunk@).entries),
            match result {
                Ok(next) => self@.feed(chunk@).failure.is_none() && next@ == self@.feed(
                    chunk@,
                ).next && next.wf(),
                Err(e) => self@.feed(chunk@).failure == Some(e),
            },
    {
        let mut indexer = self;
        if indexer.state.is_done() {
            assert(out@ + index_text(Seq::<EntryView>::empty()) =~= out@);
            return Ok(indexer);
        }
        let ghost before = indexer.state@;
        let ghost buf = self@.pending + chunk@;
        indexer.pending.extend_from_slice(chunk);
        proof {
            assert(before == self@.state);
            assert(indexer.pending@ =~= buf);
            lemma_advance_leaves(before, buf);
            lemma_advance_well_formed(before, buf);
        }
        match advance(&mut indexer.state, indexer.pending.as_slice(), out) {
            Err(e) => Err(e),
            Ok(consumed) => {
                if indexer.state.is_done() {
                    indexer.pending.clear();
                    assert(indexer.pending@ =~= Seq::<u8>::empty());
                } else {
                    let rest = indexer.pending.split_off(consumed);
                    assert(rest@ =~= buf.skip(consumed as int));
                    indexer.pending = rest;
                }
                assert(indexer@.state == self@.feed(chunk@).next.state);
                assert(indexer@.pending == self@.feed(chunk@).next.pending);
                Ok(indexer)
            },
        }
    }

    /// Closes the archive after its last chunk: the archive must be
    /// complete.
    pub fn finish(self) -> (result: Result<(), FormatError>)
        ensures
            result == self@.finish(),
    {
        if self.state.is_done() {
            Ok(())
        } else {
            Err(FormatError::Truncated)
        }
    }
}

/// From a settled indexer, feeding chunks one after the other gives what one
/// pass over all of them gives.
pub proof fn lemma_feed_all(v: IndexerView, chunks: Seq<Seq<u8>>)
    requires
        v.well_formed(),
    ensures
        ({
            let whole = advance_spec(v.state, v.pending + joined(chunks));
            &&& v.feed_all(chunks).0 == whole.entries
            &&& v.feed_all(chunks).1 == match whole.failure {
                Some(e) => Err::<(), FormatError>(e),
                None => if whole.state.proc_state == ProcState::Done {
                    Ok::<(), FormatError>(())
                } else {
                    Err::<(), FormatError>(FormatError::Truncated)
                },
            }
        }),
    decreases chunks.len(),
{
    let whole = advance_spec(v.state, v.pending + joined(chunks));
    if chunks.len() == 0 {
        assert(v.pending + joined(chunks) =~= v.pending);
        assert(whole == no_progress(v.state));
    } else if v.state.proc_state == ProcState::Done {
        let fed = v.feed(chunks[0]);
        lemma_feed_all(fed.next, chunks.drop_first());
        assert(whole == no_progress(v.state));
        assert(advance_spec(v.state, v.pending + joined(chunks.drop_first())) == no_progress(
            v.state,
        ));
        assert(fed.entries + Seq::<EntryView>::empty() =~= Seq::<EntryView>::empty());
    } else {
        let buf = v.pending + chunks[0];
        let tail = joined(chunks.drop_first());
        assert(v.pending + joined(chunks) =~= buf + tail);
        let fed = v.feed(chunks[0]);
        let pass = advance_spec(v.state, buf);
        lemma_split(v.state, buf, tail);
        if pass.failure.is_none() {
            lemma_advance_leaves(v.state, buf);
            lemma_advance_well_formed(v.state, buf);
            lemma_feed_all(fed.next, chunks.drop_first());
            let second = second_pass(v.state, buf, tail);
            if pass.state.proc_state == ProcState::Done {
                assert(second == no_progress(pass.state));
                assert(advance_spec(pass.state, fed.next.pending + tail) == no_progress(
                    pass.state,
                ));
            }
        }
    }
}

/// However an archive is cut into chunks, feeding the chunks one after the
/// other gives the entries, and the success or failure, that indexing the
/// whole archive at once gives. The index written is therefore the same,
/// byte for byte.
pub proof fn lemma_chunking_does_not_show(chunks: Seq<Seq<u8>>)
    ensures
        IndexerView::initial().feed_all(chunks) == index_spec(joined(chunks)),
        index_text(IndexerView::initial().feed_all(chunks).0) == index_text(
            index_spec(joined(chunks)).0,
        ),
{
    lemma_feed_all(IndexerView::initial(), chunks);
    assert(Seq::<u8>::empty() + joined(chunks) =~= joined(chunks));
}

} // verus!
