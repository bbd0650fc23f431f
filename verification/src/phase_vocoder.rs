//! The streaming frame of a phase vocoder: the sliding input window, the
//! overlap-add output line, the per-bin phase memory, and the counters that
//! decide when a hop is complete.
//!
//! The engine is generic in the sample type. It moves samples and keeps the
//! books; what a sample is worth numerically is the caller's business, handed
//! in as functions where a step needs it.

use vstd::prelude::*;
use crate::framing::{
    deposit,
    deposited_bin,
    frame_hop,
    hop_of,
    is_supported_size,
    lemma_hop_is_exact,
    lemma_supported_size_is_kept,
    normalize_window_size,
    nyquist_bin,
    nyquist_bin_of,
    taper_index,
    taper_index_of,
    window_size_for,
    OVERLAP_RATIO,
};
use crate::mapper::{
    compiled_of,
    diagnostic_of,
    run_outcome_of,
    Mapper,
    MapperView,
    MappingError,
    Staged,
};
use crate::ring_buffer::{
    after_pushes,
    defaults,
    is_default,
    lemma_after_pushes_append,
    wrap,
    RingBuffer,
};

verus! {

/// What one input sample brings about.
pub struct Tick<T> {
    /// The sample that leaves the output line, not yet scaled for the overlap.
    pub output: T,
    /// A hop is complete: the next analysis and synthesis cycle is to run now.
    pub cycle_due: bool,
}

/// How far a block of samples got before the next cycle.
pub struct Progress {
    /// The index of the first sample that is still to be processed.
    pub next: usize,
    /// The last sample processed completed a hop: a cycle is to run before
    /// processing goes on at `next`.
    pub cycle_due: bool,
}

/// What an engine holds, as far as contracts speak of it.
pub ghost struct EngineView<T> {
    pub window_size: int,
    pub frame_hop: int,
    /// The last `window_size` input samples, oldest first.
    pub input: Seq<T>,
    /// The output line by age; the sample at position `output_count` leaves next.
    pub output: Seq<T>,
    /// The analysis phase of each bin at the last cycle that kept its component.
    pub phases: Seq<T>,
    /// Input samples taken since the last cycle.
    pub input_count: int,
    /// The position in `output` of the sample that leaves next.
    pub output_count: int,
    pub mapper: MapperView,
}

impl<T: Default> EngineView<T> {
    /// What holds of every engine: the window is of a supported size, a hop is
    /// a quarter of it, every table is cut to it, the input counter lies within
    /// one hop, and the read offset equals the input counter.
    pub open spec fn consistent(self) -> bool {
        &&& is_supported_size(self.window_size)
        &&& self.frame_hop == hop_of(self.window_size)
        &&& self.input.len() == self.window_size
        &&& self.output.len() == self.window_size
        &&& self.phases.len() == self.window_size
        &&& 0 <= self.input_count < self.frame_hop
        &&& self.output_count == self.input_count
    }

    /// The state right after construction or a change of the window size:
    /// nothing buffered, no phase remembered, both counters at zero.
    pub open spec fn is_reset_to(self, window_size: int) -> bool {
        &&& self.window_size == window_size
        &&& self.frame_hop == hop_of(window_size)
        &&& self.input.len() == window_size
        &&& self.output.len() == window_size
        &&& self.phases.len() == window_size
        &&& forall|i: int| 0 <= i < window_size ==> is_default(#[trigger] self.input[i])
        &&& forall|i: int| 0 <= i < window_size ==> is_default(#[trigger] self.output[i])
        &&& forall|i: int| 0 <= i < window_size ==> is_default(#[trigger] self.phases[i])
        &&& self.input_count == 0
        &&& self.output_count == 0
    }

    /// `line` is the output line moved on by one hop: what waited one hop
    /// behind the oldest hop is now the oldest, and the newest hop is cleared.
    pub open spec fn line_moved_on(self, line: Seq<T>) -> bool {
        &&& line.len() == self.output.len()
        &&& forall|i: int|
            0 <= i < self.window_size - self.frame_hop ==> #[trigger] line[i] == self.output[i
                + self.frame_hop]
        &&& forall|i: int|
            self.window_size - self.frame_hop <= i < self.window_size ==> is_default(
                #[trigger] line[i],
            )
    }

    /// `next` is what taking the samples of `block` leads to, where no sample
    /// but the last completes a hop and `due` says whether the last one does.
    pub open spec fn block_taken(self, block: Seq<T>, next: Self, due: bool) -> bool {
        &&& next.window_size == self.window_size
        &&& next.frame_hop == self.frame_hop
        &&& next.phases == self.phases
        &&& next.mapper == self.mapper
        &&& next.input == after_pushes(self.input, block)
        &&& next.output_count == next.input_count
        &&& if due {
            &&& next.input_count == 0
            &&& self.line_moved_on(next.output)
        } else {
            &&& next.input_count == self.input_count + block.len()
            &&& next.output == self.output
        }
    }

    /// `next` and `tick` are what taking `sample` in state `self` leads to.
    pub open spec fn sample_taken(self, sample: T, next: Self, tick: Tick<T>) -> bool {
        let due = self.input_count + 1 >= self.frame_hop;
        let advanced = wrap(self.output_count + 1, self.window_size);
        &&& next.window_size == self.window_size
        &&& next.frame_hop == self.frame_hop
        &&& next.phases == self.phases
        &&& next.mapper == self.mapper
        &&& next.input == self.input.drop_first().push(sample)
        &&& tick.output == self.output[self.output_count]
        &&& tick.cycle_due == due
        &&& if due {
            &&& next.input_count == self.input_count + 1 - self.frame_hop
            &&& next.output_count == wrap(
                advanced + self.window_size - self.frame_hop,
                self.window_size,
            )
            &&& self.line_moved_on(next.output)
        } else {
            &&& next.input_count == self.input_count + 1
            &&& next.output_count == advanced
            &&& next.output == self.output
        }
    }
}

/// What the remap makes of one frequency component.
pub enum BinMove<T, C> {
    /// The component is dropped: it adds nothing to the synthesis spectrum.
    Dropped,
    /// The component is kept. Its bin remembers `phase`, and its two shares go
    /// to bin `k_low` and to the bin above.
    Placed { phase: T, k_low: usize, low: C, high: C },
}

/// The synthesis spectrum and the phase memory at one point of a remap.
pub ghost struct RemapState<T, C> {
    pub spectrum: Seq<C>,
    pub phases: Seq<T>,
}

/// `after` is what `outcome`, the remap of bin `bin`, makes of `before`. A
/// dropped component changes nothing, not even the phase its bin remembers.
pub open spec fn bin_moved<T, C>(
    before: RemapState<T, C>,
    after: RemapState<T, C>,
    bin: int,
    outcome: BinMove<T, C>,
    sum: spec_fn(C, C, C) -> bool,
) -> bool {
    match outcome {
        BinMove::Dropped => after == before,
        BinMove::Placed { phase, k_low, low, high } => {
            &&& after.phases == before.phases.update(bin, phase)
            &&& after.spectrum.len() == before.spectrum.len()
            &&& forall|target: int|
                0 <= target < before.spectrum.len() ==> deposited_bin(
                    before.spectrum,
                    #[trigger] after.spectrum[target],
                    target,
                    k_low as int,
                    low,
                    high,
                    sum,
                )
        },
    }
}

/// `end` is what the remap of bins `0 ..= bin` makes of `start`. Bin 0 is
/// copied from the analysis spectrum as it is. Each bin above it is moved, in
/// rising order, as `outcome_of` says for its analysis value and the phase it
/// remembers.
pub open spec fn remapped_through<T, C>(
    bin: int,
    analysis: Seq<C>,
    start: RemapState<T, C>,
    end: RemapState<T, C>,
    outcome_of: spec_fn(int, C, T, BinMove<T, C>) -> bool,
    sum: spec_fn(C, C, C) -> bool,
) -> bool
    decreases bin,
{
    if bin <= 0 {
        end == (RemapState { spectrum: start.spectrum.update(0, analysis[0]), phases: start.phases })
    } else {
        exists|before: RemapState<T, C>, outcome: BinMove<T, C>|
            {
                &&& remapped_through(bin - 1, analysis, start, before, outcome_of, sum)
                &&& outcome_of(bin, analysis[bin], before.phases[bin], outcome)
                &&& bin_moved(before, end, bin, outcome, sum)
            }
    }
}

pub struct PhaseVocoder<T: Default + Copy> {
    window_size: usize,
    frame_hop: usize,
    input_buffer: RingBuffer<T>,
    output_buffer: RingBuffer<T>,
    prev_analysis_phase: Vec<T>,
    input_count: usize,
    output_count: usize,
    mapper: Mapper,
}

impl<T: Default + Copy> View for PhaseVocoder<T> {
    type V = EngineView<T>;

    closed spec fn view(&self) -> EngineView<T> {
        EngineView {
            window_size: self.window_size as int,
            frame_hop: self.frame_hop as int,
            input: self.input_buffer@,
            output: self.output_buffer@,
            phases: self.prev_analysis_phase@,
            input_count: self.input_count as int,
            output_count: self.output_count as int,
            mapper: self.mapper@,
        }
    }
}

impl<T: Default + Copy> PhaseVocoder<T> {
    /// An engine for the supported size next to `window_size`, with nothing
    /// buffered and no mapping.
    pub fn new(window_size: usize) -> (engine: Self)
        requires
            window_size <= usize::MAX / 2 + 1,
        ensures
            engine@.is_reset_to(window_size_for(window_size as int)),
            engine@.consistent(),
            is_supported_size(window_size as int) ==> engine@.window_size == window_size,
            engine@.mapper.mapping is None,
            engine@.mapper.hash == engine@.mapper.empty_hash,
    {
        let size = normalize_window_size(window_size);
        proof {
            lemma_hop_is_exact(size as int);
            if is_supported_size(window_size as int) {
                lemma_supported_size_is_kept(window_size as int);
            }
        }
        PhaseVocoder {
            window_size: size,
            frame_hop: frame_hop(size),
            input_buffer: RingBuffer::new(size),
            output_buffer: RingBuffer::new(size),
            prev_analysis_phase: defaults(size),
            input_count: 0,
            output_count: 0,
            mapper: Mapper::new(),
        }
    }

    pub fn window_size(&self) -> (size: usize)
        ensures
            size == self@.window_size,
    {
        self.window_size
    }

    pub fn frame_hop(&self) -> (hop: usize)
        ensures
            hop == self@.frame_hop,
    {
        self.frame_hop
    }

    /// The delay, in samples, between a sample going in and its image coming
    /// out: one window.
    pub fn latency(&self) -> (samples: usize)
        ensures
            samples == self@.window_size,
    {
        self.window_size
    }

    /// Falls back to the identity mapping.
    pub fn clear_mapper(&mut self)
        ensures
            final(self)@ == (EngineView {
                mapper: MapperView { mapping: None, ..old(self)@.mapper },
                ..old(self)@
            }),
    {
        self.mapper.clear();
    }

    /// Begins the installation of the mapping that `code` describes, as
    /// `Mapper::update` does: the empty text clears the mapping, a text whose
    /// hash is the cached one changes nothing, a text that does not compile is
    /// refused, and a text that compiles is put in place as the candidate. The
    /// ticket that then comes back is to be handed to `settle_mapping` with
    /// the outcome of one run of the candidate on the neutral input. The stream
    /// is never touched.
    pub fn update_mapping(&mut self, code: &str) -> (result: Result<Option<Staged>, MappingError>)
        ensures
            final(self)@ == (EngineView { mapper: final(self)@.mapper, ..old(self)@ }),
            code@.len() == 0 ==> result == Ok::<Option<Staged>, MappingError>(None)
                && final(self)@.mapper == (MapperView {
                mapping: None,
                hash: old(self)@.mapper.empty_hash,
                ..old(self)@.mapper
            }),
            code@.len() > 0 && compiled_of(old(self)@.mapper.engine, code@) is Ok ==> result is Ok,
            code@.len() > 0 && result == Ok::<Option<Staged>, MappingError>(None) ==> final(self)@
                == old(self)@,
            result matches Err(e) ==> compiled_of(old(self)@.mapper.engine, code@) is Err
                && e is CompileError
                && e->CompileError_0@ == diagnostic_of(
                compiled_of(old(self)@.mapper.engine, code@)->Err_0,
            ) && final(self)@ == old(self)@,
            result matches Ok(Some(staged)) ==> code@.len() > 0
                && staged.text_hash() != old(self)@.mapper.hash
                && old(self)@.mapper.stages(staged, staged.text_hash())
                && compiled_of(old(self)@.mapper.engine, code@) is Ok
                && final(self)@.mapper == old(self)@.mapper.staging(
                compiled_of(old(self)@.mapper.engine, code@)->Ok_0,
            ),
    {
        self.mapper.update(code)
    }

    /// Ends an installation: `outcome` is that of the candidate's validation
    /// run. After a run without a fault the candidate stays and its hash is
    /// committed. After a fault the mapping that was there before is put back
    /// and the fault comes back as a `RuntimeError`. The stream is never
    /// touched.
    pub fn settle_mapping(
        &mut self,
        staged: Staged,
        outcome: Result<(), String>,
    ) -> (result: Result<(), MappingError>)
        ensures
            final(self)@ == (EngineView {
                mapper: old(self)@.mapper.settled(staged, outcome),
                ..old(self)@
            }),
            result == run_outcome_of(outcome),
    {
        self.mapper.settle(staged, outcome)
    }

    /// The mapping slot, which lends out the engine and the script for a run.
    pub fn mapper(&self) -> (mapper: &Mapper)
        ensures
            mapper@ == self@.mapper,
    {
        &self.mapper
    }

    /// Changes the window to the supported size next to `window_size`. Where
    /// that is the current size nothing happens. Else all buffered audio and all
    /// phase memory is dropped and both counters start again; the mapping stays.
    pub fn renew_window_size(&mut self, window_size: usize) -> (changed: Option<usize>)
        requires
            old(self)@.consistent(),
            window_size <= usize::MAX / 2 + 1,
        ensures
            final(self)@.consistent(),
            final(self)@.mapper == old(self)@.mapper,
            final(self)@.window_size == window_size_for(window_size as int),
            is_supported_size(window_size as int) ==> final(self)@.window_size == window_size,
            window_size_for(window_size as int) == old(self)@.window_size ==> changed is None
                && final(self)@ == old(self)@,
            window_size_for(window_size as int) != old(self)@.window_size ==> changed == Some(
                window_size_for(window_size as int) as usize,
            ) && final(self)@.is_reset_to(window_size_for(window_size as int)),
    {
        let size = normalize_window_size(window_size);
        proof {
            if is_supported_size(window_size as int) {
                lemma_supported_size_is_kept(window_size as int);
            }
        }
        if size == self.window_size {
            return None;
        }
        proof {
            lemma_hop_is_exact(size as int);
        }
        self.window_size = size;
        self.frame_hop = frame_hop(size);
        self.input_buffer = RingBuffer::new(size);
        self.output_buffer = RingBuffer::new(size);
        self.prev_analysis_phase = defaults(size);
        self.input_count = 0;
        self.output_count = 0;
        Some(size)
    }

    /// Takes one input sample and gives the output sample that is due.
    ///
    /// The sample enters the input window, the output line is read at the read
    /// offset, and both counters move on. Where this completes a hop, the output
    /// line moves on by one hop, its newest hop cleared for the next frame, the
    /// input counter loses one hop and the read offset is set back by one.
    pub fn accept(&mut self, sample: T) -> (tick: Tick<T>)
        requires
            old(self)@.consistent(),
        ensures
            old(self)@.sample_taken(sample, final(self)@, tick),
            final(self)@.consistent(),
    {
        proof {
            lemma_hop_is_exact(self.window_size as int);
        }
        let size = self.window_size;
        let hop = self.frame_hop;
        self.input_buffer.push(sample);
        let read_at = self.output_count;
        let output = self.output_buffer[read_at];
        proof {
            vstd::arithmetic::div_mod::lemma_small_mod(read_at as nat, size as nat);
        }
        let advanced = if read_at + 1 == size {
            0
        } else {
            read_at + 1
        };
        proof {
            if read_at + 1 == size {
                vstd::arithmetic::div_mod::lemma_fundamental_div_mod_converse(
                    read_at + 1,
                    size as int,
                    1,
                    0,
                );
            } else {
                vstd::arithmetic::div_mod::lemma_small_mod((read_at + 1) as nat, size as nat);
            }
        }
        let count = self.input_count + 1;
        if count >= hop {
            let cleared = self.output_buffer.extend_defaults(hop);
            assert(cleared);
            self.input_count = count - hop;
            let rewound = if advanced >= hop {
                advanced - hop
            } else {
                advanced + (size - hop)
            };
            proof {
                let sum = advanced as int + size as int - hop as int;
                if advanced >= hop {
                    vstd::arithmetic::div_mod::lemma_fundamental_div_mod_converse(
                        sum,
                        size as int,
                        1,
                        advanced as int - hop as int,
                    );
                } else {
                    vstd::arithmetic::div_mod::lemma_small_mod(sum as nat, size as nat);
                }
            }
            self.output_count = rewound;
            Tick { output, cycle_due: true }
        } else {
            self.input_count = count;
            self.output_count = advanced;
            Tick { output, cycle_due: false }
        }
    }

    /// Processes the samples of `signal` in place, from index `from` on and
    /// from left to right, up to the end of the block or to the sample that
    /// completes a hop, whichever comes first.
    ///
    /// Each sample enters the input window and is replaced by what `scale` makes
    /// of the sample that leaves the output line and of the overlap ratio, by
    /// which it is to be raised. The output line itself moves on only where the
    /// hop is completed.
    pub fn process_to_hop<S: Fn(T, usize) -> T>(
        &mut self,
        signal: &mut [T],
        from: usize,
        scale: S,
    ) -> (progress: Progress)
        requires
            old(self)@.consistent(),
            from <= old(signal)@.len(),
            forall|sample: T, overlap: usize| call_requires(scale, (sample, overlap)),
        ensures
            final(self)@.consistent(),
            final(signal)@.len() == old(signal)@.len(),
            from <= progress.next <= old(signal)@.len(),
            progress.next - from == vstd::math::min(
                old(signal)@.len() - from,
                old(self)@.frame_hop - old(self)@.input_count,
            ),
            progress.cycle_due == (progress.next - from == old(self)@.frame_hop
                - old(self)@.input_count),
            forall|i: int|
                0 <= i < from || progress.next <= i < old(signal)@.len()
                    ==> #[trigger] final(signal)@[i] == old(signal)@[i],
            forall|i: int|
                from <= i < progress.next ==> call_ensures(
                    scale,
                    (old(self)@.output[old(self)@.output_count + i - from], OVERLAP_RATIO),
                    #[trigger] final(signal)@[i],
                ),
            old(self)@.block_taken(
                old(signal)@.subrange(from as int, progress.next as int),
                final(self)@,
                progress.cycle_due,
            ),
    {
        proof {
            lemma_hop_is_exact(self.window_size as int);
        }
        let len = signal.len();
        let mut at = from;
        let mut due = false;
        while at < len && !due
            invariant
                from <= at <= len == signal@.len() == old(signal)@.len(),
                old(self)@.consistent(),
                self@.consistent(),
                at - from <= old(self)@.frame_hop - old(self)@.input_count,
                due == (at - from == old(self)@.frame_hop - old(self)@.input_count),
                forall|sample: T, overlap: usize| call_requires(scale, (sample, overlap)),
                forall|i: int|
                    0 <= i < from || at <= i < len ==> #[trigger] signal@[i] == old(signal)@[i],
                forall|i: int|
                    from <= i < at ==> call_ensures(
                        scale,
                        (old(self)@.output[old(self)@.output_count + i - from], OVERLAP_RATIO),
                        #[trigger] signal@[i],
                    ),
                old(self)@.block_taken(old(signal)@.subrange(from as int, at as int), self@, due),
            decreases len - at,
        {
            let ghost before = self@;
            let ghost block = old(signal)@.subrange(from as int, at as int);
            let sample = signal[at];
            let tick = self.accept(sample);
            let scaled = scale(tick.output, OVERLAP_RATIO);
            signal[at] = scaled;
            proof {
                let longer = old(signal)@.subrange(from as int, at + 1);
                assert(longer =~= block + seq![sample]);
                lemma_after_pushes_append(old(self)@.input, block, seq![sample]);
                assert(seq![sample].drop_first() =~= Seq::<T>::empty());
                assert(after_pushes(before.input, seq![sample]) == before.input.drop_first().push(
                    sample,
                )) by {
                    assert(after_pushes(before.input.drop_first().push(sample), Seq::<T>::empty())
                        == before.input.drop_first().push(sample));
                }
            }
            due = tick.cycle_due;
            at = at + 1;
        }
        Progress { next: at, cycle_due: due }
    }

    /// The input window, oldest sample first.
    pub fn input_buffer(&self) -> (window: &RingBuffer<T>)
        ensures
            window@ == self@.input,
    {
        &self.input_buffer
    }

    /// The output line.
    pub fn output_buffer(&self) -> (line: &RingBuffer<T>)
        ensures
            line@ == self@.output,
    {
        &self.output_buffer
    }

    /// The phase that bin `bin` had at the last cycle that kept it.
    pub fn phase(&self, bin: usize) -> (phase: T)
        requires
            bin < self@.phases.len(),
        ensures
            phase == self@.phases[bin as int],
    {
        self.prev_analysis_phase[bin]
    }

    /// Remembers `phase` for bin `bin`.
    pub fn set_phase(&mut self, bin: usize, phase: T)
        requires
            bin < old(self)@.phases.len(),
        ensures
            final(self)@ == (EngineView {
                phases: old(self)@.phases.update(bin as int, phase),
                ..old(self)@
            }),
    {
        self.prev_analysis_phase[bin] = phase;
    }

    /// Cuts the analysis frame: entry `i` of `frame` becomes what `weigh` makes
    /// of the input sample of age `i` and of the place of `i` in the period of a
    /// taper that is rotated by `offset`.
    pub fn load_frame<C, W: Fn(usize, T) -> C>(&self, frame: &mut Vec<C>, offset: usize, weigh: W)
        requires
            self@.consistent(),
            forall|at: usize, sample: T| call_requires(weigh, (at, sample)),
        ensures
            final(frame)@.len() == old(frame)@.len(),
            forall|i: int|
                0 <= i < old(frame)@.len() ==> call_ensures(
                    weigh,
                    (
                        taper_index_of(self@.window_size, i, offset as int) as usize,
                        self@.input[wrap(i, self@.window_size)],
                    ),
                    #[trigger] final(frame)@[i],
                ),
    {
        let len = frame.len();
        let mut i: usize = 0;
        while i < len
            invariant
                i <= len,
                frame@.len() == len == old(frame)@.len(),
                self@.consistent(),
                forall|at: usize, sample: T| call_requires(weigh, (at, sample)),
                forall|j: int|
                    0 <= j < i ==> call_ensures(
                        weigh,
                        (
                            taper_index_of(self@.window_size, j, offset as int) as usize,
                            self@.input[wrap(j, self@.window_size)],
                        ),
                        #[trigger] frame@[j],
                    ),
            decreases len - i,
        {
            let sample = self.input_buffer[i];
            let entry = weigh(taper_index(self.window_size, i, offset), sample);
            frame[i] = entry;
            i = i + 1;
        }
    }

    /// The mapping slot as a value, for contracts that hand it on.
    pub closed spec fn mapper_slot(&self) -> Mapper {
        self.mapper
    }

    /// Builds the lower half of the synthesis spectrum from the analysis
    /// spectrum.
    ///
    /// The synthesis spectrum is first cleared to `silence`, and bin 0 is
    /// copied as it is. For each bin from 1 to the Nyquist bin, in rising order,
    /// `remap` is asked what becomes of the component, given the mapping slot,
    /// the bin, its analysis value and the phase the bin remembers. A component
    /// that is placed leaves its phase with the bin and its shares on the
    /// spectrum, summed by `combine` onto what lies there. A component that is
    /// dropped leaves no trace.
    pub fn remap_bins<C: Copy, F: Fn(&Mapper, usize, C, T) -> BinMove<T, C>, A: Fn(C, C) -> C>(
        &mut self,
        analysis: &Vec<C>,
        synthesis: &mut Vec<C>,
        silence: C,
        remap: F,
        combine: A,
    )
        requires
            old(self)@.consistent(),
            analysis@.len() == old(self)@.window_size,
            old(synthesis)@.len() == old(self)@.window_size,
            forall|slot: &Mapper, bin: usize, value: C, phase: T|
                call_requires(remap, (slot, bin, value, phase)),
            forall|held: C, share: C| call_requires(combine, (held, share)),
        ensures
            final(self)@ == (EngineView { phases: final(self)@.phases, ..old(self)@ }),
            final(self)@.consistent(),
            final(self).mapper_slot() == old(self).mapper_slot(),
            final(synthesis)@.len() == old(synthesis)@.len(),
            remapped_through(
                nyquist_bin_of(old(self)@.window_size),
                analysis@,
                RemapState {
                    spectrum: Seq::new(old(synthesis)@.len(), |bin: int| silence),
                    phases: old(self)@.phases,
                },
                RemapState { spectrum: final(synthesis)@, phases: final(self)@.phases },
                |bin: int, value: C, phase: T, outcome: BinMove<T, C>|
                    call_ensures(
                        remap,
                        (&old(self).mapper_slot(), bin as usize, value, phase),
                        outcome,
                    ),
                |held: C, share: C, r: C| call_ensures(combine, (held, share), r),
            ),
    {
        proof {
            lemma_hop_is_exact(self.window_size as int);
        }
        let size = self.window_size;
        let top = nyquist_bin(size);
        let mut cleared: usize = 0;
        while cleared < size
            invariant
                cleared <= size == synthesis@.len(),
                forall|bin: int| 0 <= bin < cleared ==> #[trigger] synthesis@[bin] == silence,
            decreases size - cleared,
        {
            synthesis[cleared] = silence;
            cleared = cleared + 1;
        }
        let ghost start = RemapState {
            spectrum: Seq::new(old(synthesis)@.len(), |bin: int| silence),
            phases: self.prev_analysis_phase@,
        };
        assert(synthesis@ =~= start.spectrum);
        let ghost outcome_of = |bin: int, value: C, phase: T, outcome: BinMove<T, C>|
            call_ensures(remap, (&old(self).mapper_slot(), bin as usize, value, phase), outcome);
        let ghost sum = |held: C, share: C, r: C| call_ensures(combine, (held, share), r);
        let dc = analysis[0];
        synthesis[0] = dc;
        let mut bin: usize = 1;
        while bin <= top
            invariant
                1 <= bin <= top + 1,
                top == nyquist_bin_of(old(self)@.window_size),
                old(self)@.consistent(),
                2 * top == old(self)@.window_size,
                analysis@.len() == old(self)@.window_size,
                synthesis@.len() == old(self)@.window_size,
                self@ == (EngineView { phases: self@.phases, ..old(self)@ }),
                self@.phases.len() == old(self)@.window_size,
                self.mapper_slot() == old(self).mapper_slot(),
                start == (RemapState {
                    spectrum: Seq::new(old(synthesis)@.len(), |bin: int| silence),
                    phases: old(self)@.phases,
                }),
                outcome_of == (|bin: int, value: C, phase: T, outcome: BinMove<T, C>|
                    call_ensures(
                        remap,
                        (&old(self).mapper_slot(), bin as usize, value, phase),
                        outcome,
                    )),
                sum == (|held: C, share: C, r: C| call_ensures(combine, (held, share), r)),
                forall|slot: &Mapper, bin: usize, value: C, phase: T|
                    call_requires(remap, (slot, bin, value, phase)),
                forall|held: C, share: C| call_requires(combine, (held, share)),
                remapped_through(
                    bin - 1,
                    analysis@,
                    start,
                    RemapState { spectrum: synthesis@, phases: self@.phases },
                    outcome_of,
                    sum,
                ),
            decreases top + 1 - bin,
        {
            let ghost before = RemapState { spectrum: synthesis@, phases: self@.phases };
            let outcome = remap(&self.mapper, bin, analysis[bin], self.prev_analysis_phase[bin]);
            match outcome {
                BinMove::Dropped => {},
                BinMove::Placed { phase, k_low, low, high } => {
                    self.prev_analysis_phase[bin] = phase;
                    deposit(synthesis, k_low, low, high, &combine);
                },
            }
            proof {
                let after = RemapState { spectrum: synthesis@, phases: self@.phases };
                assert(outcome_of(
                    bin as int,
                    analysis@[bin as int],
                    before.phases[bin as int],
                    outcome,
                ));
                assert(bin_moved(before, after, bin as int, outcome, sum));
                assert(remapped_through(bin as int, analysis@, start, after, outcome_of, sum));
            }
            bin = bin + 1;
        }
    }

    /// Adds a synthesis frame onto the output line: position `i` becomes what
    /// `mix` makes of what already lies there, of entry `i` of `frame`, and of
    /// the place of `i` in the period of a taper that is rotated by `offset`.
    pub fn overlap_add<C: Copy, M: Fn(T, C, usize) -> T>(
        &mut self,
        frame: &Vec<C>,
        offset: usize,
        mix: M,
    )
        requires
            old(self)@.consistent(),
            frame@.len() >= old(self)@.window_size,
            forall|held: T, entry: C, at: usize| call_requires(mix, (held, entry, at)),
        ensures
            final(self)@ == (EngineView { output: final(self)@.output, ..old(self)@ }),
            final(self)@.consistent(),
            forall|i: int|
                0 <= i < old(self)@.window_size ==> call_ensures(
                    mix,
                    (
                        old(self)@.output[i],
                        frame@[i],
                        taper_index_of(old(self)@.window_size, i, offset as int) as usize,
                    ),
                    #[trigger] final(self)@.output[i],
                ),
    {
        let size = self.window_size;
        let mut i: usize = 0;
        while i < size
            invariant
                i <= size,
                size == old(self)@.window_size,
                old(self)@.consistent(),
                frame@.len() >= size,
                self@ == (EngineView { output: self@.output, ..old(self)@ }),
                self@.output.len() == size,
                forall|held: T, entry: C, at: usize| call_requires(mix, (held, entry, at)),
                forall|j: int|
                    0 <= j < i ==> call_ensures(
                        mix,
                        (
                            old(self)@.output[j],
                            frame@[j],
                            taper_index_of(size as int, j, offset as int) as usize,
                        ),
                        #[trigger] self@.output[j],
                    ),
                forall|j: int| i <= j < size ==> #[trigger] self@.output[j] == old(self)@.output[j],
            decreases size - i,
        {
            proof {
                vstd::arithmetic::div_mod::lemma_small_mod(i as nat, size as nat);
            }
            let held = self.output_buffer[i];
            let mixed = mix(held, frame[i], taper_index(size, i, offset));
            let slot = self.output_buffer.index_mut(i);
            *slot = mixed;
            i = i + 1;
        }
    }
}

/// Taking a sample keeps an engine consistent: the read offset follows the
/// input counter and so never leaves the oldest hop of the output line. A
/// cycle is due exactly when the counters are back at zero.
pub proof fn lemma_sample_keeps_consistent<T: Default>(
    before: EngineView<T>,
    sample: T,
    after: EngineView<T>,
    tick: Tick<T>,
)
    requires
        before.consistent(),
        before.sample_taken(sample, after, tick),
    ensures
        after.consistent(),
        0 <= after.output_count < after.frame_hop,
        tick.cycle_due <==> after.input_count == 0,
{
    lemma_hop_is_exact(before.window_size);
    let size = before.window_size;
    let hop = before.frame_hop;
    let count = before.input_count;
    vstd::arithmetic::div_mod::lemma_small_mod((count + 1) as nat, size as nat);
    if count + 1 >= hop {
        vstd::arithmetic::div_mod::lemma_fundamental_div_mod_converse(
            count + 1 + size - hop,
            size,
            1,
            0,
        );
    }
}

/// With every input sample, each sample that waits on the output line comes
/// one step nearer to the read offset, whether or not a hop completes; none
/// overtakes another, and the one at the read offset is the one that leaves.
pub proof fn lemma_output_line_advances<T: Default>(
    before: EngineView<T>,
    sample: T,
    after: EngineView<T>,
    tick: Tick<T>,
    position: int,
)
    requires
        before.consistent(),
        before.sample_taken(sample, after, tick),
        before.output_count < position < before.window_size,
    ensures
        tick.output == before.output[before.output_count],
        ({
            let shift = if tick.cycle_due {
                before.frame_hop
            } else {
                0
            };
            &&& 0 <= position - shift < after.window_size
            &&& after.output[position - shift] == before.output[position]
            &&& position - shift - after.output_count == position - before.output_count - 1
        }),
{
    lemma_sample_keeps_consistent(before, sample, after, tick);
    lemma_hop_is_exact(before.window_size);
    vstd::arithmetic::div_mod::lemma_small_mod(
        (before.input_count + 1) as nat,
        before.window_size as nat,
    );
}

/// `states`, `samples` and `ticks` record a run of samples taken one after
/// another, with nothing laid onto the output line in between.
pub open spec fn samples_taken<T: Default>(
    states: Seq<EngineView<T>>,
    samples: Seq<T>,
    ticks: Seq<Tick<T>>,
) -> bool {
    &&& states.len() == samples.len() + 1
    &&& ticks.len() == samples.len()
    &&& forall|i: int|
        0 <= i < samples.len() ==> (#[trigger] states[i]).sample_taken(
            samples[i],
            states[i + 1],
            ticks[i],
        )
}

/// What lies `d` positions behind the read offset of the output line leaves
/// with the input sample after the next `d`: the delay of a sample is its
/// distance from the read offset, however many hops complete on the way.
pub proof fn lemma_emission_time<T: Default>(
    states: Seq<EngineView<T>>,
    samples: Seq<T>,
    ticks: Seq<Tick<T>>,
    position: int,
)
    requires
        states.len() > 0,
        states[0].consistent(),
        samples_taken(states, samples, ticks),
        states[0].output_count <= position < states[0].window_size,
        samples.len() == position - states[0].output_count + 1,
    ensures
        ticks[samples.len() - 1].output == states[0].output[position],
    decreases samples.len(),
{
    let first = states[0];
    assert(first.sample_taken(samples[0], states[1], ticks[0]));
    if position > first.output_count {
        lemma_sample_keeps_consistent(first, samples[0], states[1], ticks[0]);
        lemma_output_line_advances(first, samples[0], states[1], ticks[0], position);
        let shift = if ticks[0].cycle_due {
            first.frame_hop
        } else {
            0
        };
        let later_states = states.drop_first();
        let later_samples = samples.drop_first();
        let later_ticks = ticks.drop_first();
        assert forall|i: int| 0 <= i < later_samples.len() implies (#[trigger] later_states[i]).sample_taken(
            later_samples[i],
            later_states[i + 1],
            later_ticks[i],
        ) by {
            assert(states[i + 1].sample_taken(samples[i + 1], states[i + 2], ticks[i + 1]));
        }
        lemma_emission_time(later_states, later_samples, later_ticks, position - shift);
        assert(later_ticks[later_samples.len() - 1] == ticks[samples.len() - 1]);
    }
}

/// The remap never moves bin 0: after it alone the spectrum differs from the
/// one before in bin 0 only, which holds the analysis value, and no phase has
/// changed.
pub proof fn lemma_lowest_bin_is_copied<T, C>(
    analysis: Seq<C>,
    start: RemapState<T, C>,
    end: RemapState<T, C>,
    outcome_of: spec_fn(int, C, T, BinMove<T, C>) -> bool,
    sum: spec_fn(C, C, C) -> bool,
)
    requires
        start.spectrum.len() > 0,
        remapped_through(0, analysis, start, end, outcome_of, sum),
    ensures
        end.spectrum[0] == analysis[0],
        end.spectrum.len() == start.spectrum.len(),
        forall|bin: int| 0 < bin < start.spectrum.len() ==> end.spectrum[bin] == start.spectrum[bin],
        end.phases == start.phases,
{
}

/// A bin whose component can only be dropped leaves no trace: what the remap
/// has made once it is through with that bin is what it had made before it.
pub proof fn lemma_dropped_bin_adds_nothing<T, C>(
    bin: int,
    analysis: Seq<C>,
    start: RemapState<T, C>,
    end: RemapState<T, C>,
    outcome_of: spec_fn(int, C, T, BinMove<T, C>) -> bool,
    sum: spec_fn(C, C, C) -> bool,
)
    requires
        bin >= 1,
        remapped_through(bin, analysis, start, end, outcome_of, sum),
        forall|value: C, phase: T, outcome: BinMove<T, C>|
            #[trigger] outcome_of(bin, value, phase, outcome) ==> outcome is Dropped,
    ensures
        remapped_through(bin - 1, analysis, start, end, outcome_of, sum),
{
    let (before, outcome) = choose|before: RemapState<T, C>, outcome: BinMove<T, C>|
        {
            &&& remapped_through(bin - 1, analysis, start, before, outcome_of, sum)
            &&& outcome_of(bin, analysis[bin], before.phases[bin], outcome)
            &&& bin_moved(before, end, bin, outcome, sum)
        };
    assert(outcome is Dropped);
    assert(end == before);
}

/// `end` is what a remap of bins `0 ..= bin` makes of `start` when it passes
/// over the bin `skipped` without asking what becomes of its component: that
/// bin adds nothing and keeps its phase, and every other bin is moved as in
/// `remapped_through`.
pub open spec fn remapped_skipping<T, C>(
    bin: int,
    skipped: int,
    analysis: Seq<C>,
    start: RemapState<T, C>,
    end: RemapState<T, C>,
    outcome_of: spec_fn(int, C, T, BinMove<T, C>) -> bool,
    sum: spec_fn(C, C, C) -> bool,
) -> bool
    decreases bin,
{
    if bin <= 0 {
        end == (RemapState { spectrum: start.spectrum.update(0, analysis[0]), phases: start.phases })
    } else if bin == skipped {
        remapped_skipping(bin - 1, skipped, analysis, start, end, outcome_of, sum)
    } else {
        exists|before: RemapState<T, C>, outcome: BinMove<T, C>|
            {
                &&& remapped_skipping(bin - 1, skipped, analysis, start, before, outcome_of, sum)
                &&& outcome_of(bin, analysis[bin], before.phases[bin], outcome)
                &&& bin_moved(before, end, bin, outcome, sum)
            }
    }
}

/// Below the bin that is passed over, a remap that skips it is the remap itself.
proof fn lemma_skipping_agrees_below<T, C>(
    bin: int,
    skipped: int,
    analysis: Seq<C>,
    start: RemapState<T, C>,
    end: RemapState<T, C>,
    outcome_of: spec_fn(int, C, T, BinMove<T, C>) -> bool,
    sum: spec_fn(C, C, C) -> bool,
)
    requires
        bin < skipped,
        remapped_through(bin, analysis, start, end, outcome_of, sum),
    ensures
        remapped_skipping(bin, skipped, analysis, start, end, outcome_of, sum),
    decreases bin,
{
    if bin > 0 {
        let (before, outcome) = choose|before: RemapState<T, C>, outcome: BinMove<T, C>|
            {
                &&& remapped_through(bin - 1, analysis, start, before, outcome_of, sum)
                &&& outcome_of(bin, analysis[bin], before.phases[bin], outcome)
                &&& bin_moved(before, end, bin, outcome, sum)
            };
        lemma_skipping_agrees_below(bin - 1, skipped, analysis, start, before, outcome_of, sum);
    }
}

/// A component that can only be dropped is as good as never asked for,
/// wherever its bin lies: the spectrum and the phases that the whole remap
/// leaves are those of a remap that passes over that bin. The bins moved after
/// it find everything as if it had not been there.
pub proof fn lemma_dropped_bin_is_skipped<T, C>(
    bin: int,
    dropped: int,
    analysis: Seq<C>,
    start: RemapState<T, C>,
    end: RemapState<T, C>,
    outcome_of: spec_fn(int, C, T, BinMove<T, C>) -> bool,
    sum: spec_fn(C, C, C) -> bool,
)
    requires
        1 <= dropped <= bin,
        remapped_through(bin, analysis, start, end, outcome_of, sum),
        forall|value: C, phase: T, outcome: BinMove<T, C>|
            #[trigger] outcome_of(dropped, value, phase, outcome) ==> outcome is Dropped,
    ensures
        remapped_skipping(bin, dropped, analysis, start, end, outcome_of, sum),
    decreases bin,
{
    let (before, outcome) = choose|before: RemapState<T, C>, outcome: BinMove<T, C>|
        {
            &&& remapped_through(bin - 1, analysis, start, before, outcome_of, sum)
            &&& outcome_of(bin, analysis[bin], before.phases[bin], outcome)
            &&& bin_moved(before, end, bin, outcome, sum)
        };
    if bin == dropped {
        assert(outcome is Dropped);
        assert(end == before);
        lemma_skipping_agrees_below(bin - 1, dropped, analysis, start, end, outcome_of, sum);
    } else {
        lemma_dropped_bin_is_skipped(bin - 1, dropped, analysis, start, before, outcome_of, sum);
    }
}

/// A remap changes the length of neither table: the synthesis spectrum and
/// the phase memory come out as long as they went in.
pub proof fn lemma_remap_keeps_lengths<T, C>(
    bin: int,
    analysis: Seq<C>,
    start: RemapState<T, C>,
    end: RemapState<T, C>,
    outcome_of: spec_fn(int, C, T, BinMove<T, C>) -> bool,
    sum: spec_fn(C, C, C) -> bool,
)
    requires
        bin < start.phases.len(),
        start.spectrum.len() > 0,
        remapped_through(bin, analysis, start, end, outcome_of, sum),
    ensures
        end.phases.len() == start.phases.len(),
        end.spectrum.len() == start.spectrum.len(),
    decreases bin,
{
    if bin > 0 {
        let (before, outcome) = choose|before: RemapState<T, C>, outcome: BinMove<T, C>|
            {
                &&& remapped_through(bin - 1, analysis, start, before, outcome_of, sum)
                &&& outcome_of(bin, analysis[bin], before.phases[bin], outcome)
                &&& bin_moved(before, end, bin, outcome, sum)
            };
        lemma_remap_keeps_lengths(bin - 1, analysis, start, before, outcome_of, sum);
    }
}

/// A remap of bins `0 ..= bin` writes the phase of no other bin: bin 0, which
/// is only copied, and every bin above `bin` remember what they remembered
/// before. After a whole remap those are bin 0 and the bins above the Nyquist
/// bin.
pub proof fn lemma_unmoved_bins_keep_phase<T, C>(
    bin: int,
    analysis: Seq<C>,
    start: RemapState<T, C>,
    end: RemapState<T, C>,
    outcome_of: spec_fn(int, C, T, BinMove<T, C>) -> bool,
    sum: spec_fn(C, C, C) -> bool,
)
    requires
        bin < start.phases.len(),
        start.spectrum.len() > 0,
        remapped_through(bin, analysis, start, end, outcome_of, sum),
    ensures
        end.phases.len() == start.phases.len(),
        forall|other: int|
            0 <= other < start.phases.len() && (other == 0 || other > bin) ==> end.phases[other]
                == start.phases[other],
    decreases bin,
{
    lemma_remap_keeps_lengths(bin, analysis, start, end, outcome_of, sum);
    if bin > 0 {
        let (before, outcome) = choose|before: RemapState<T, C>, outcome: BinMove<T, C>|
            {
                &&& remapped_through(bin - 1, analysis, start, before, outcome_of, sum)
                &&& outcome_of(bin, analysis[bin], before.phases[bin], outcome)
                &&& bin_moved(before, end, bin, outcome, sum)
            };
        lemma_unmoved_bins_keep_phase(bin - 1, analysis, start, before, outcome_of, sum);
    }
}

/// A bin whose component is placed remembers the phase that came with it, and
/// every bin of the spectrum holds what it held before, summed with the share
/// that fell on it.
pub proof fn lemma_placed_bin_is_deposited<T, C>(
    before: RemapState<T, C>,
    after: RemapState<T, C>,
    bin: int,
    outcome: BinMove<T, C>,
    sum: spec_fn(C, C, C) -> bool,
)
    requires
        0 <= bin < before.phases.len(),
        outcome is Placed,
        bin_moved(before, after, bin, outcome, sum),
        outcome->k_low < nyquist_bin_of(before.spectrum.len() as int),
    ensures
        after.phases[bin] == outcome->phase,
        forall|other: int|
            0 <= other < before.phases.len() && other != bin ==> after.phases[other]
                == before.phases[other],
        sum(before.spectrum[outcome->k_low as int], outcome->low, after.spectrum[outcome->k_low as int]),
        sum(
            before.spectrum[outcome->k_low + 1],
            outcome->high,
            after.spectrum[outcome->k_low + 1],
        ),
{
    let k_low = outcome->k_low as int;
    assert(deposited_bin(
        before.spectrum,
        after.spectrum[k_low],
        k_low,
        k_low,
        outcome->low,
        outcome->high,
        sum,
    ));
    assert(deposited_bin(
        before.spectrum,
        after.spectrum[k_low + 1],
        k_low + 1,
        k_low,
        outcome->low,
        outcome->high,
        sum,
    ));
}

} // verus!
