//! The update pipeline: chunks read from the selected file are decoded one
//! record at a time and fed straight to the flash writer — reading and
//! writing interleave per block, never as separate passes. After the last
//! chunk the trailing window is committed and control is handed to the boot
//! trampoline. Every failure is fatal: a half-committed window cannot be
//! retried safely, so each error transitions the update to its terminal
//! fault state.

use crate::boot::BOOT_TARGET;
use crate::device::DeviceError;
use crate::flash::{
    commit_models, finish_commit, fresh_model, opt_commits, run_blocks, run_stream, step, Commit,
    CommitModel, FlashWriter, SequenceError, WriterModel, WINDOW_SIZE,
};
use crate::uf2::{spec_parse, Block, BlockModel, FormatError};
use vstd::prelude::*;

verus! {

/// Why an update aborted. All three are fatal; there is no retry tier below
/// "abort and require manual reset".
#[derive(Clone, Copy, Debug, PartialEq, Eq, Structural)]
pub enum UpdateError {
    /// A malformed record.
    Format(FormatError),
    /// A block stream whose addresses regress or straddle a window.
    Sequence(SequenceError),
    /// A storage or flash device failure.
    Device(DeviceError),
}

/// Where the update stands. `Reading` covers the per-block interleaving of
/// reads and writes; `Booting` and `Fault` are terminal.
#[derive(Clone, Copy, Debug, PartialEq, Eq, Structural)]
pub enum UpdateState {
    /// Nothing triggered yet.
    Idle,
    /// The selected file is open; chunks are read, decoded and written.
    Reading,
    /// End of file was reached; the trailing window is being committed.
    Flushing,
    /// Control is being handed to the new image. No state follows.
    Booting,
    /// A fatal error; the device requires a manual reset.
    Fault,
}

/// The views of a sequence of chunks.
pub open spec fn chunk_views(chunks: Seq<Vec<u8>>) -> Seq<Seq<u8>> {
    chunks.map_values(|c: Vec<u8>| c@)
}

/// Runs the writer over decoded chunks: the state it reaches and the commits
/// it emits, or the first error.
pub open spec fn spec_run(m: WriterModel, chunks: Seq<Seq<u8>>) -> Result<
    (WriterModel, Seq<CommitModel>),
    UpdateError,
>
    decreases chunks.len(),
{
    if chunks.len() == 0 {
        Ok((m, Seq::empty()))
    } else {
        match spec_run(m, chunks.drop_last()) {
            Err(e) => Err(e),
            Ok(p) => match spec_parse(chunks.last()) {
                Err(fe) => Err(UpdateError::Format(fe)),
                Ok(b) => match step(p.0, b) {
                    Err(se) => Err(UpdateError::Sequence(se)),
                    Ok(q) => Ok((q.0, p.1 + opt_commits(q.1))),
                },
            },
        }
    }
}

/// The whole pipeline over one file: every commit the update performs, in
/// order, including the trailing window, or the first error.
pub open spec fn spec_update(loader: Seq<u8>, chunks: Seq<Seq<u8>>) -> Result<
    Seq<CommitModel>,
    UpdateError,
> {
    match spec_run(fresh_model(loader), chunks) {
        Err(e) => Err(e),
        Ok(p) => Ok(p.1 + opt_commits(finish_commit(p.0))),
    }
}

/// The run over the first `i` chunks succeeds and reaches exactly the
/// writer state `w` having emitted exactly the commits `cs`. Kept opaque so
/// that the update loop can carry it as one fact; the lemmas below establish
/// and consume it.
#[verifier::opaque]
spec fn run_reaches(
    m: WriterModel,
    views: Seq<Seq<u8>>,
    i: int,
    w: WriterModel,
    cs: Seq<CommitModel>,
) -> bool {
    spec_run(m, views.take(i)) == Ok::<(WriterModel, Seq<CommitModel>), UpdateError>((w, cs))
}

/// A run over no chunks reaches the start state with no commits.
proof fn lemma_run_reaches_nil(m: WriterModel, views: Seq<Seq<u8>>)
    ensures
        run_reaches(m, views, 0, m, Seq::empty()),
{
    reveal(run_reaches);
    assert(views.take(0) =~= Seq::<Seq<u8>>::empty());
}

/// An error reached while running a prefix stands for the whole stream.
proof fn lemma_spec_run_err(m: WriterModel, chunks: Seq<Seq<u8>>, i: int)
    requires
        0 <= i <= chunks.len(),
        spec_run(m, chunks.take(i)) is Err,
    ensures
        spec_run(m, chunks) == spec_run(m, chunks.take(i)),
    decreases chunks.len() - i,
{
    if i == chunks.len() {
        assert(chunks.take(i) =~= chunks);
    } else {
        assert(chunks.take(i + 1).drop_last() =~= chunks.take(i));
        lemma_spec_run_err(m, chunks, i + 1);
    }
}

/// Extends a successful run by one successfully handled chunk.
proof fn lemma_run_reaches_snoc(
    m: WriterModel,
    views: Seq<Seq<u8>>,
    i: int,
    pre: WriterModel,
    precms: Seq<CommitModel>,
    b: BlockModel,
    q0: WriterModel,
    q1: Option<CommitModel>,
)
    requires
        0 <= i < views.len(),
        run_reaches(m, views, i, pre, precms),
        spec_parse(views[i]) == Ok::<BlockModel, FormatError>(b),
        step(pre, b) == Ok::<(WriterModel, Option<CommitModel>), SequenceError>((q0, q1)),
    ensures
        run_reaches(m, views, i + 1, q0, precms + opt_commits(q1)),
{
    reveal(run_reaches);
    assert(views.take(i + 1).drop_last() =~= views.take(i));
    assert(views.take(i + 1).last() == views[i]);
}

/// A chunk that fails to decode aborts the whole stream with its error.
proof fn lemma_run_parse_err(
    m: WriterModel,
    views: Seq<Seq<u8>>,
    i: int,
    pre: WriterModel,
    precms: Seq<CommitModel>,
    fe: FormatError,
)
    requires
        0 <= i < views.len(),
        run_reaches(m, views, i, pre, precms),
        spec_parse(views[i]) == Err::<BlockModel, FormatError>(fe),
    ensures
        spec_run(m, views) == Err::<(WriterModel, Seq<CommitModel>), UpdateError>(
            UpdateError::Format(fe),
        ),
{
    reveal(run_reaches);
    assert(views.take(i + 1).drop_last() =~= views.take(i));
    assert(views.take(i + 1).last() == views[i]);
    lemma_spec_run_err(m, views, i + 1);
}

/// A block the writer rejects aborts the whole stream with its error.
proof fn lemma_run_step_err(
    m: WriterModel,
    views: Seq<Seq<u8>>,
    i: int,
    pre: WriterModel,
    precms: Seq<CommitModel>,
    b: BlockModel,
    se: SequenceError,
)
    requires
        0 <= i < views.len(),
        run_reaches(m, views, i, pre, precms),
        spec_parse(views[i]) == Ok::<BlockModel, FormatError>(b),
        step(pre, b) == Err::<(WriterModel, Option<CommitModel>), SequenceError>(se),
    ensures
        spec_run(m, views) == Err::<(WriterModel, Seq<CommitModel>), UpdateError>(
            UpdateError::Sequence(se),
        ),
{
    reveal(run_reaches);
    assert(views.take(i + 1).drop_last() =~= views.take(i));
    assert(views.take(i + 1).last() == views[i]);
    lemma_spec_run_err(m, views, i + 1);
}

/// A completed run, closed by the trailing-window commit, is the whole
/// update.
proof fn lemma_spec_update_done(
    l: Seq<u8>,
    views: Seq<Seq<u8>>,
    w: WriterModel,
    cms: Seq<CommitModel>,
    total: Seq<CommitModel>,
)
    requires
        run_reaches(fresh_model(l), views, views.len() as int, w, cms),
        total == cms + opt_commits(finish_commit(w)),
    ensures
        spec_update(l, views) == Ok::<Seq<CommitModel>, UpdateError>(total),
{
    reveal(run_reaches);
    assert(views.take(views.len() as int) =~= views);
}

/// Decodes and writes a whole stream of chunks, one block per chunk, and
/// commits the trailing window: the pure core of an update, behaving exactly
/// as [`spec_update`] describes. The caller carries the returned commits out
/// in order against the flash device.
pub fn run_update(loader: Vec<u8>, chunks: &Vec<Vec<u8>>) -> (r: Result<Vec<Commit>, UpdateError>)
    requires
        loader.len() <= WINDOW_SIZE,
    ensures
        match r {
            Ok(cs) => {
                &&& spec_update(loader@, chunk_views(chunks@)) == Ok::<
                    Seq<CommitModel>,
                    UpdateError,
                >(commit_models(cs@))
                &&& forall|i: int| 0 <= i < cs@.len() ==> (#[trigger] cs@[i]).wf()
            },
            Err(e) => spec_update(loader@, chunk_views(chunks@)) == Err::<
                Seq<CommitModel>,
                UpdateError,
            >(e),
        },
{
    let ghost l: Seq<u8> = loader@;
    let ghost views: Seq<Seq<u8>> = chunk_views(chunks@);
    let mut writer = FlashWriter::new(loader);
    let mut commits: Vec<Commit> = Vec::new();
    let mut i: usize = 0;
    proof {
        lemma_run_reaches_nil(fresh_model(l), views);
        assert(commit_models(commits@) =~= Seq::<CommitModel>::empty());
    }
    while i < chunks.len()
        invariant
            i <= chunks.len(),
            l == loader@,
            views == chunk_views(chunks@),
            views.len() == chunks@.len(),
            writer.wf(),
            run_reaches(fresh_model(l), views, i as int, writer.model(), commit_models(commits@)),
            forall|j: int| 0 <= j < commits@.len() ==> (#[trigger] commits@[j]).wf(),
        decreases chunks.len() - i,
    {
        let ghost pre: WriterModel = writer.model();
        let ghost precms: Seq<CommitModel> = commit_models(commits@);
        proof {
            assert(views[i as int] == chunks@[i as int]@);
        }
        let block = match Block::parse(&chunks[i]) {
            Ok(b) => b,
            Err(fe) => {
                proof {
                    lemma_run_parse_err(fresh_model(l), views, i as int, pre, precms, fe);
                }
                return Err(UpdateError::Format(fe));
            },
        };
        match writer.next_block(&block) {
            Ok(Some(c)) => {
                proof {
                    lemma_run_reaches_snoc(
                        fresh_model(l),
                        views,
                        i as int,
                        pre,
                        precms,
                        block.model(),
                        writer.model(),
                        Some(c.model()),
                    );
                }
                commits.push(c);
                proof {
                    assert(commit_models(commits@) =~= precms + opt_commits(
                        Some(commits@.last().model()),
                    ));
                }
            },
            Ok(None) => {
                proof {
                    lemma_run_reaches_snoc(
                        fresh_model(l),
                        views,
                        i as int,
                        pre,
                        precms,
                        block.model(),
                        writer.model(),
                        None,
                    );
                    assert(commit_models(commits@) =~= precms + opt_commits(None));
                }
            },
            Err(se) => {
                proof {
                    lemma_run_step_err(
                        fresh_model(l),
                        views,
                        i as int,
                        pre,
                        precms,
                        block.model(),
                        se,
                    );
                }
                return Err(UpdateError::Sequence(se));
            },
        }
        i = i + 1;
    }
    let ghost w: WriterModel = writer.model();
    let ghost cms: Seq<CommitModel> = commit_models(commits@);
    match writer.finish() {
        Some(c) => {
            commits.push(c);
            proof {
                assert(commit_models(commits@) =~= cms + opt_commits(
                    Some(commits@.last().model()),
                ));
                lemma_spec_update_done(l, views, w, cms, commit_models(commits@));
            }
        },
        None => {
            proof {
                assert(commit_models(commits@) =~= cms + opt_commits(None));
                lemma_spec_update_done(l, views, w, cms, commit_models(commits@));
            }
        },
    }
    Ok(commits)
}

/// When every chunk decodes, the chunk pipeline is exactly the writer run
/// over the decoded blocks: what [`run_update`] promises composes with the
/// laws stated over [`run_blocks`] and [`run_stream`].
pub proof fn lemma_spec_run_is_run_blocks(
    m: WriterModel,
    views: Seq<Seq<u8>>,
    blocks: Seq<BlockModel>,
)
    requires
        views.len() == blocks.len(),
        forall|i: int|
            0 <= i < views.len() ==> spec_parse(#[trigger] views[i]) == Ok::<
                BlockModel,
                FormatError,
            >(blocks[i]),
    ensures
        spec_run(m, views) == match run_blocks(m, blocks) {
            Ok(p) => Ok::<(WriterModel, Seq<CommitModel>), UpdateError>(p),
            Err(se) => Err::<(WriterModel, Seq<CommitModel>), UpdateError>(
                UpdateError::Sequence(se),
            ),
        },
    decreases views.len(),
{
    if views.len() > 0 {
        assert(views.drop_last().len() == blocks.drop_last().len());
        assert(forall|i: int|
            0 <= i < views.drop_last().len() ==> #[trigger] views.drop_last()[i] == views[i]);
        assert(forall|i: int|
            0 <= i < blocks.drop_last().len() ==> #[trigger] blocks.drop_last()[i] == blocks[i]);
        lemma_spec_run_is_run_blocks(m, views.drop_last(), blocks.drop_last());
        assert(spec_parse(views.last()) == Ok::<BlockModel, FormatError>(blocks.last()));
    }
}

/// The whole-file pipeline over decoding chunks is the whole-stream writer
/// run over the decoded blocks.
pub proof fn lemma_spec_update_is_run_stream(
    loader: Seq<u8>,
    views: Seq<Seq<u8>>,
    blocks: Seq<BlockModel>,
)
    requires
        views.len() == blocks.len(),
        forall|i: int|
            0 <= i < views.len() ==> spec_parse(#[trigger] views[i]) == Ok::<
                BlockModel,
                FormatError,
            >(blocks[i]),
    ensures
        spec_update(loader, views) == match run_stream(loader, blocks) {
            Ok(cs) => Ok::<Seq<CommitModel>, UpdateError>(cs),
            Err(se) => Err::<Seq<CommitModel>, UpdateError>(UpdateError::Sequence(se)),
        },
{
    lemma_spec_run_is_run_blocks(fresh_model(loader), views, blocks);
}

/// Drives one whole update: opening the selected file, the per-block
/// read-decode-write loop, the trailing commit, and the hand-off. The
/// surrounding firmware owns the file and flash devices; it feeds events in
/// and carries the returned commits out. Once `launch` is reached the device
/// answers nothing further until the new image runs.
pub struct UpdateOrchestrator {
    state: UpdateState,
    writer: FlashWriter,
}

impl UpdateOrchestrator {
    /// Where the update stands.
    pub closed spec fn spec_state(&self) -> UpdateState {
        self.state
    }

    /// The mathematical state of the writer driven by this update.
    pub closed spec fn writer_model(&self) -> WriterModel {
        self.writer.model()
    }

    /// The orchestrator's invariant.
    pub open spec fn wf(&self) -> bool {
        self.writer_model().wf()
    }

    /// An update that has not been triggered yet.
    pub fn new(loader: Vec<u8>) -> (o: UpdateOrchestrator)
        requires
            loader.len() <= WINDOW_SIZE,
        ensures
            o.wf(),
            o.spec_state() == UpdateState::Idle,
            o.writer_model() == fresh_model(loader@),
    {
        UpdateOrchestrator { state: UpdateState::Idle, writer: FlashWriter::new(loader) }
    }

    /// Where the update stands, as a runtime value.
    pub fn state(&self) -> (s: UpdateState)
        ensures
            s == self.spec_state(),
    {
        self.state
    }

    /// The selected file was opened: reading begins.
    pub fn file_opened(&mut self)
        requires
            old(self).wf(),
            old(self).spec_state() == UpdateState::Idle,
        ensures
            final(self).wf(),
            final(self).spec_state() == UpdateState::Reading,
            final(self).writer_model() == old(self).writer_model(),
    {
        self.state = UpdateState::Reading;
    }

    /// The selected file was not found: the update faults before touching
    /// flash.
    pub fn file_missing(&mut self)
        requires
            old(self).wf(),
            old(self).spec_state() == UpdateState::Idle,
        ensures
            final(self).wf(),
            final(self).spec_state() == UpdateState::Fault,
            final(self).writer_model() == old(self).writer_model(),
    {
        self.state = UpdateState::Fault;
    }

    /// One chunk was read: it is decoded and written at once. A malformed
    /// record or a rejected block faults the update with the writer
    /// untouched; otherwise the update keeps reading and the caller must
    /// carry out the returned commit, if any, before the next chunk.
    pub fn chunk_read(&mut self, chunk: &Vec<u8>) -> (r: Result<Option<Commit>, UpdateError>)
        requires
            old(self).wf(),
            old(self).spec_state() == UpdateState::Reading,
        ensures
            final(self).wf(),
            match spec_parse(chunk@) {
                Err(fe) => {
                    &&& r == Err::<Option<Commit>, UpdateError>(UpdateError::Format(fe))
                    &&& final(self).spec_state() == UpdateState::Fault
                    &&& final(self).writer_model() == old(self).writer_model()
                },
                Ok(b) => match step(old(self).writer_model(), b) {
                    Err(se) => {
                        &&& r == Err::<Option<Commit>, UpdateError>(UpdateError::Sequence(se))
                        &&& final(self).spec_state() == UpdateState::Fault
                        &&& final(self).writer_model() == old(self).writer_model()
                    },
                    Ok(q) => {
                        &&& final(self).spec_state() == UpdateState::Reading
                        &&& final(self).writer_model() == q.0
                        &&& match r {
                            Ok(Some(c)) => q.1 == Some(c.model()) && c.wf(),
                            Ok(None) => q.1 is None,
                            Err(_) => false,
                        }
                    },
                },
            },
    {
        let block = match Block::parse(chunk) {
            Ok(b) => b,
            Err(fe) => {
                self.state = UpdateState::Fault;
                return Err(UpdateError::Format(fe));
            },
        };
        match self.writer.next_block(&block) {
            Ok(c) => Ok(c),
            Err(se) => {
                self.state = UpdateState::Fault;
                Err(UpdateError::Sequence(se))
            },
        }
    }

    /// End of file: the trailing, possibly partial, window is committed.
    /// The caller must carry the returned commit out, then hand off.
    pub fn end_of_file(&mut self) -> (r: Option<Commit>)
        requires
            old(self).wf(),
            old(self).spec_state() == UpdateState::Reading,
        ensures
            final(self).wf(),
            final(self).spec_state() == UpdateState::Flushing,
            final(self).writer_model() == fresh_model(old(self).writer_model().loader),
            match r {
                Some(c) => c.wf() && finish_commit(old(self).writer_model()) == Some(c.model()),
                None => finish_commit(old(self).writer_model()) is None,
            },
    {
        self.state = UpdateState::Flushing;
        self.writer.finish()
    }

    /// The flash or storage device failed: the update faults; flash may be
    /// half rewritten and must not be touched again. Returns the failure as
    /// the update's own error, for whatever status display there is.
    pub fn device_failed(&mut self, e: DeviceError) -> (r: UpdateError)
        requires
            old(self).wf(),
        ensures
            final(self).wf(),
            final(self).spec_state() == UpdateState::Fault,
            final(self).writer_model() == old(self).writer_model(),
            r == UpdateError::Device(e),
    {
        self.state = UpdateState::Fault;
        UpdateError::Device(e)
    }

    /// Everything is flashed: the update is over and the caller must now
    /// disable interrupts and jump through the vector table at the returned
    /// address. No state follows.
    pub fn launch(&mut self) -> (target: u32)
        requires
            old(self).wf(),
            old(self).spec_state() == UpdateState::Flushing,
        ensures
            final(self).wf(),
            final(self).spec_state() == UpdateState::Booting,
            final(self).writer_model() == old(self).writer_model(),
            target == BOOT_TARGET,
    {
        self.state = UpdateState::Booting;
        BOOT_TARGET
    }
}

} // verus!
