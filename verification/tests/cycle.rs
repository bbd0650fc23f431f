use freq_remapper::framing::complete_spectrum;
use freq_remapper::mapper::Mapper;
use freq_remapper::phase_vocoder::{BinMove, PhaseVocoder};
use rhai::Scope;
use rustfft::num_complex::Complex;
use rustfft::{Fft, FftPlanner};
use std::f32::consts::PI;
use std::sync::Arc;

const SIZE: usize = 64;
const RATE: f32 = 48000.0;

/// The engine with single-precision samples, a raised-cosine taper and real transforms.
struct Rig {
    frame: PhaseVocoder<f32>,
    forward: Arc<dyn Fft<f32>>,
    inverse: Arc<dyn Fft<f32>>,
    analysis: Vec<Complex<f32>>,
    synthesis: Vec<Complex<f32>>,
    shape: f32,
    offset: usize,
    gain: f32,
}

fn taper(size: usize, at: usize, shape: f32) -> f32 {
    0.5 * (shape - (1.0 - shape) * (2.0 * PI * at as f32 / size as f32).cos())
}

fn scope_of(frequency: f32, magnitude: f32) -> Scope<'static> {
    let mut scope = Scope::new();
    for name in ["a", "b", "c", "d", "bpm", "daw_time", "sys_time"] {
        scope.push(name, 0.0_f32);
    }
    scope.push("sound_channel_id", 0_i32);
    scope.push("window_size", SIZE as i32);
    scope.push("sample_rate", RATE);
    scope.push("frequency", frequency);
    scope.push("magnitude", magnitude);
    scope
}

/// What becomes of one bin: the mapping is asked, and the component is dropped
/// outside the band or split between the two bins next to its new frequency.
fn remap_bin(
    slot: &Mapper,
    size: usize,
    bin: usize,
    value: Complex<f32>,
    phase: f32,
) -> BinMove<f32, Complex<f32>> {
    let centre = bin as f32 * RATE / size as f32;
    let mut scope = scope_of(centre, value.norm());
    if let Some(script) = slot.script() {
        slot.engine().run_ast_with_scope(&mut scope, script).expect("the mapping runs");
    }
    let mapped = scope.get_value::<f32>("frequency").expect("frequency is bound");
    let magnitude = scope.get_value::<f32>("magnitude").expect("magnitude is bound");
    if mapped < 0.0 || mapped >= RATE / 2.0 {
        return BinMove::Dropped;
    }
    let hop = size / 4;
    let turned = phase + 2.0 * PI * centre * hop as f32 / RATE;
    let index = mapped / RATE * size as f32;
    let component = Complex::from_polar(magnitude, turned);
    BinMove::Placed {
        phase: value.arg(),
        k_low: index.floor() as usize,
        low: (1.0 - index.fract()) * component,
        high: index.fract() * component,
    }
}

/// A whole installation: the candidate is staged, run once on the neutral input, and settled.
fn install(frame: &mut PhaseVocoder<f32>, code: &str) {
    let staged = frame.update_mapping(code).expect("the text compiles");
    if let Some(staged) = staged {
        let script = frame.mapper().script().expect("the candidate is in place");
        let outcome = frame
            .mapper()
            .engine()
            .run_ast_with_scope(&mut scope_of(0.0, 0.0), script)
            .map_err(|fault| fault.to_string());
        frame.settle_mapping(staged, outcome).expect("the mapping is accepted");
    }
}

impl Rig {
    fn new() -> Rig {
        let mut planner = FftPlanner::new();
        Rig {
            frame: PhaseVocoder::new(SIZE),
            forward: planner.plan_fft_forward(SIZE),
            inverse: planner.plan_fft_inverse(SIZE),
            analysis: vec![Complex::new(0.0, 0.0); SIZE],
            synthesis: vec![Complex::new(0.0, 0.0); SIZE],
            shape: 0.5,
            offset: 0,
            gain: 1.0,
        }
    }

    fn install(&mut self, code: &str) {
        install(&mut self.frame, code);
    }

    fn cycle(&mut self) {
        let (shape, offset, gain) = (self.shape, self.offset, self.gain);
        self.frame.load_frame(&mut self.analysis, offset, |at, sample| {
            Complex::new(taper(SIZE, at, shape) * sample, 0.0)
        });
        self.forward.process(&mut self.analysis);
        self.frame.remap_bins(
            &self.analysis,
            &mut self.synthesis,
            Complex::new(0.0, 0.0),
            |slot, bin, value, phase| remap_bin(slot, SIZE, bin, value, phase),
            |held, share| held + share,
        );
        complete_spectrum(
            &mut self.synthesis,
            |bin: Complex<f32>| Complex::new(bin.re, 0.0),
            |bin: Complex<f32>| bin.conj(),
        );
        self.inverse.process(&mut self.synthesis);
        self.frame.overlap_add(&self.synthesis, offset, |held, entry: Complex<f32>, at| {
            held + entry.re * taper(SIZE, at, shape) / SIZE as f32 * gain
        });
    }

    fn process(&mut self, signal: &mut [f32]) {
        let mut at = 0;
        while at < signal.len() {
            let progress =
                self.frame.process_to_hop(signal, at, |sample, overlap| sample * overlap as f32);
            if progress.cycle_due {
                self.cycle();
            }
            at = progress.next;
        }
    }

    fn run(&mut self, input: &[f32]) -> Vec<f32> {
        let mut output = input.to_vec();
        for block in output.chunks_mut(50) {
            self.process(block);
        }
        output
    }
}

fn tone(bin: usize, amplitude: f32, start: f32, len: usize) -> Vec<f32> {
    (0..len)
        .map(|t| amplitude * (2.0 * PI * (bin * t) as f32 / SIZE as f32 + start).cos())
        .collect()
}

fn assert_close(actual: f32, expected: f32, at: usize) {
    assert!(
        (actual - expected).abs() < 2e-3,
        "sample {}: {} is not close to {}",
        at,
        actual,
        expected
    );
}

#[test]
fn stationary_tone_comes_out_one_window_later() {
    let input = tone(8, 0.8, 0.3, 12 * SIZE);
    let output = Rig::new().run(&input);
    for t in 3 * SIZE..input.len() {
        assert_close(output[t], input[t - SIZE], t);
    }
}

#[test]
fn output_is_silent_during_the_first_hop() {
    let input = tone(8, 0.8, 0.3, SIZE);
    let output = Rig::new().run(&input);
    for t in 0..SIZE / 4 {
        assert_eq!(output[t], 0.0);
    }
}

#[test]
fn tone_passes_a_rotated_taper() {
    let input = tone(5, 0.5, 1.1, 12 * SIZE);
    let mut rig = Rig::new();
    rig.offset = 21;
    let output = rig.run(&input);
    for t in 3 * SIZE..input.len() {
        assert_close(output[t], input[t - SIZE], t);
    }
}

#[test]
fn gain_scales_the_output() {
    let input = tone(8, 0.8, 0.0, 12 * SIZE);
    let mut rig = Rig::new();
    rig.gain = 0.5;
    let output = rig.run(&input);
    for t in 3 * SIZE..input.len() {
        assert_close(output[t], 0.5 * input[t - SIZE], t);
    }
}

#[test]
fn constant_signal_stays_constant() {
    let input = vec![0.25_f32; 12 * SIZE];
    let output = Rig::new().run(&input);
    for t in 3 * SIZE..input.len() {
        assert_close(output[t], 0.25, t);
    }
}

#[test]
fn constant_signal_survives_a_mapping_that_drops_every_bin() {
    let input = vec![0.25_f32; 12 * SIZE];
    let mut rig = Rig::new();
    rig.install("frequency = sample_rate;");
    let output = rig.run(&input);
    for t in 3 * SIZE..input.len() - 1 {
        assert!((output[t] - output[t + 1]).abs() < 2e-3);
        assert!(output[t] > 0.05);
    }
}

#[test]
fn identity_script_is_the_identity() {
    let input = tone(8, 0.8, 0.3, 12 * SIZE);
    let mut rig = Rig::new();
    rig.install("frequency = frequency; magnitude = magnitude;");
    let output = rig.run(&input);
    for t in 3 * SIZE..input.len() {
        assert_close(output[t], input[t - SIZE], t);
    }
}

#[test]
fn frequency_at_or_above_nyquist_is_dropped() {
    let low = tone(4, 0.5, 0.2, 12 * SIZE);
    let high = tone(16, 0.4, 0.9, 12 * SIZE);
    let input: Vec<f32> = low.iter().zip(high.iter()).map(|(l, h)| l + h).collect();
    let mut rig = Rig::new();
    rig.install("if frequency > 9000.0 { frequency = sample_rate / 2.0; }");
    let output = rig.run(&input);
    for t in 3 * SIZE..input.len() {
        assert_close(output[t], low[t - SIZE], t);
    }
}

#[test]
fn negative_frequency_is_dropped() {
    let input = tone(8, 0.8, 0.3, 12 * SIZE);
    let mut rig = Rig::new();
    rig.install("frequency = -frequency;");
    let output = rig.run(&input);
    for t in 3 * SIZE..input.len() {
        assert_close(output[t], 0.0, t);
    }
}

#[test]
fn magnitude_is_remapped() {
    let input = tone(8, 0.8, 0.3, 12 * SIZE);
    let mut rig = Rig::new();
    rig.install("magnitude = magnitude * 0.25;");
    let output = rig.run(&input);
    for t in 3 * SIZE..input.len() {
        assert_close(output[t], 0.25 * input[t - SIZE], t);
    }
}

#[test]
fn bins_with_one_target_sum_their_shares() {
    let mut frame: PhaseVocoder<f32> = PhaseVocoder::new(16);
    install(&mut frame, "if frequency > 8000.0 { frequency = 6750.0; }");
    let mut analysis = vec![Complex::new(0.0_f32, 0.0); 16];
    analysis[3] = Complex::new(2.0, 0.0);
    analysis[5] = Complex::new(0.0, 4.0);
    let mut synthesis = vec![Complex::new(9.0_f32, 9.0); 16];
    frame.remap_bins(
        &analysis,
        &mut synthesis,
        Complex::new(0.0, 0.0),
        |slot, bin, value, phase| remap_bin(slot, 16, bin, value, phase),
        |held, share| held + share,
    );
    let third = Complex::from_polar(2.0_f32, 2.0 * PI * 3.0 / 4.0);
    let fifth = Complex::from_polar(4.0_f32, 2.0 * PI * 5.0 / 4.0);
    let close = |actual: Complex<f32>, expected: Complex<f32>| (actual - expected).norm() < 1e-4;
    assert!(close(synthesis[2], 0.75 * third + 0.75 * fifth));
    assert!(close(synthesis[3], 0.25 * third + 0.25 * fifth));
    assert!(close(synthesis[5], Complex::new(0.0, 0.0)));
    assert!(close(synthesis[0], Complex::new(0.0, 0.0)));
    assert!((frame.phase(3) - 0.0).abs() < 1e-6);
    assert!((frame.phase(5) - PI / 2.0).abs() < 1e-6);
}
