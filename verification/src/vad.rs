//! Where speech lies in a recording, from what a voice detector said of
//! each short chunk of it.
//!
//! The detector is asked about one chunk of audio after the other. A
//! stretch of speech ends where the detector has heard nothing for long
//! enough, and a little audio is kept on either side of it.

use vstd::prelude::*;

verus! {

/// The sample rates that the voice detector takes.
#[derive(Clone, Copy, Debug, PartialEq, Eq)]
pub enum SampleRate {
    Hz8000,
    Hz16000,
}

impl SampleRate {
    /// The rate in samples per second.
    pub open spec fn spec_hz(self) -> i64 {
        match self {
            SampleRate::Hz8000 => 8000,
            SampleRate::Hz16000 => 16000,
        }
    }

    /// The rate in samples per second.
    #[verifier::when_used_as_spec(spec_hz)]
    pub fn hz(self) -> (r: i64)
        ensures
            r == self.spec_hz(),
    {
        match self {
            SampleRate::Hz8000 => 8000,
            SampleRate::Hz16000 => 16000,
        }
    }
}

/// The number of samples in a chunk.
pub const CHUNK: usize = 480;

/// How silence is told from a pause, in chunks and samples.
#[derive(Clone, Copy, Debug, PartialEq, Eq)]
pub struct VadParams {
    /// As many silent chunks between speech and speech end a section.
    pub min_silence_chunks: usize,
    /// As many silent chunks at the end of the audio are cut off.
    pub min_trim_silence_chunks: usize,
    /// As many samples are kept before and after speech.
    pub padding_samples: usize,
}

impl VadParams {
    /// The padding is no longer than the shortest silence that counts.
    pub open spec fn wf(self) -> bool {
        self.padding_samples / CHUNK <= self.min_silence_chunks && self.padding_samples / CHUNK
            <= self.min_trim_silence_chunks
    }

    /// Puts the three numbers together, or nothing where the padding is
    /// longer than the shortest silence that counts.
    pub fn new(
        min_silence_chunks: usize,
        min_trim_silence_chunks: usize,
        padding_samples: usize,
    ) -> (r: Option<VadParams>)
        ensures
            r is Some <==> (VadParams {
                min_silence_chunks,
                min_trim_silence_chunks,
                padding_samples,
            }).wf(),
            r is Some ==> r->0 == (VadParams {
                min_silence_chunks,
                min_trim_silence_chunks,
                padding_samples,
            }),
    {
        let shortest = if min_silence_chunks <= min_trim_silence_chunks {
            min_silence_chunks
        } else {
            min_trim_silence_chunks
        };
        if padding_samples / CHUNK > shortest {
            None
        } else {
            Some(VadParams { min_silence_chunks, min_trim_silence_chunks, padding_samples })
        }
    }
}

/// What is known after some chunks.
pub struct Scan {
    /// The sections of speech that have ended, by first sample and sample
    /// behind the last.
    pub sections: Seq<(usize, usize)>,
    /// Where the section that has not ended begins.
    pub start: int,
    /// How many chunks in a row were silent last.
    pub silent: int,
    /// No speech was heard yet.
    pub at_start: bool,
}

/// What is known after the chunks of which `silent` says whether nothing
/// was heard in them.
pub open spec fn scan(p: VadParams, silent: Seq<bool>) -> Scan
    decreases silent.len(),
{
    if silent.len() == 0 {
        Scan { sections: Seq::empty(), start: 0, silent: 0, at_start: true }
    } else {
        let s = scan(p, silent.drop_last());
        let i = silent.len() - 1;
        if silent.last() {
            Scan {
                silent: s.silent + 1,
                start: if s.at_start {
                    i * CHUNK
                } else {
                    s.start
                },
                ..s
            }
        } else if s.at_start {
            Scan {
                start: if s.start >= p.padding_samples {
                    s.start - p.padding_samples
                } else {
                    0
                },
                silent: 0,
                at_start: false,
                ..s
            }
        } else if s.silent >= p.min_silence_chunks {
            Scan {
                sections: s.sections.push(
                    (s.start as usize, ((i - s.silent) * CHUNK + p.padding_samples) as usize),
                ),
                start: i * CHUNK - p.padding_samples,
                silent: 0,
                ..s
            }
        } else {
            Scan { silent: 0, ..s }
        }
    }
}

/// The silent chunks at the end that are cut off: all of them if they are
/// enough to count, else none.
pub open spec fn trimmed_chunks(p: VadParams, silent: Seq<bool>) -> int {
    if scan(p, silent).silent < p.min_trim_silence_chunks {
        0
    } else {
        scan(p, silent).silent
    }
}

/// The sections of speech in a recording of `samples` samples, or nothing
/// where more is to be cut off at its end than it has.
pub open spec fn sections_of(p: VadParams, silent: Seq<bool>, samples: int) -> Option<
    Seq<(usize, usize)>,
> {
    let s = scan(p, silent);
    let cut = trimmed_chunks(p, silent) * CHUNK;
    if cut > samples {
        None
    } else {
        let end = if samples - cut + p.padding_samples < samples {
            samples - cut + p.padding_samples
        } else {
            samples
        };
        Some(s.sections.push((s.start as usize, end as usize)))
    }
}

/// The numbers of a scan stay within the chunks seen.
proof fn lemma_scan_bounds(p: VadParams, silent: Seq<bool>)
    requires
        p.wf(),
    ensures
        0 <= scan(p, silent).silent <= silent.len(),
        0 <= scan(p, silent).start <= silent.len() * CHUNK,
        !scan(p, silent).at_start ==> scan(p, silent).silent < silent.len(),
    decreases silent.len(),
{
    if silent.len() > 0 {
        lemma_scan_bounds(p, silent.drop_last());
        let s = scan(p, silent.drop_last());
        let i = silent.len() - 1;
        if !silent.last() && !s.at_start && s.silent >= p.min_silence_chunks {
            assert(p.padding_samples < (p.min_silence_chunks + 1) * CHUNK) by {
                assert(p.padding_samples / CHUNK <= p.min_silence_chunks);
                assert(p.padding_samples == CHUNK * (p.padding_samples / CHUNK) + p.padding_samples
                    % CHUNK) by {
                    vstd::arithmetic::div_mod::lemma_fundamental_div_mod(
                        p.padding_samples as int,
                        CHUNK as int,
                    );
                }
            }
        }
    }
}

/// Finds the sections of speech in a recording of `samples` samples.
///
/// `silent` says of each chunk of the recording, in order, whether the
/// detector heard nothing in it. Speech begins with the first chunk that is
/// not silent, and a section of it ends where at least
/// `min_silence_chunks` silent chunks are followed by one that is not. The
/// padding is added to both ends of a section, as far as the recording
/// goes. Silence at the end of the recording is cut off if it is at least
/// `min_trim_silence_chunks` long.
pub fn speech_sections(params: &VadParams, silent: &Vec<bool>, samples: usize) -> (r: Option<
    Vec<(usize, usize)>,
>)
    requires
        params.wf(),
        silent.len() * CHUNK + params.padding_samples <= usize::MAX,
        samples + params.padding_samples <= usize::MAX,
    ensures
        match r {
            Some(sections) => sections_of(*params, silent@, samples as int) == Some(sections@),
            None => sections_of(*params, silent@, samples as int) is None,
        },
{
    let padding = params.padding_samples;
    let mut sections: Vec<(usize, usize)> = Vec::new();
    let mut chain: usize = 0;
    let mut current_start: usize = 0;
    let mut is_at_start = true;
    let mut i: usize = 0;
    proof {
        assert(silent@.take(0) =~= Seq::<bool>::empty());
    }
    while i < silent.len()
        invariant
            i <= silent.len(),
            params.wf(),
            padding == params.padding_samples,
            silent.len() * CHUNK + padding <= usize::MAX,
            scan(*params, silent@.take(i as int)) == (Scan {
                sections: sections@,
                start: current_start as int,
                silent: chain as int,
                at_start: is_at_start,
            }),
        decreases silent.len() - i,
    {
        proof {
            lemma_scan_bounds(*params, silent@.take(i as int));
            lemma_scan_bounds(*params, silent@.take(i + 1));
            assert(silent@.take(i + 1).drop_last() =~= silent@.take(i as int));
            assert(silent@.take(i + 1).last() == silent@[i as int]);
            assert(i * CHUNK <= silent.len() * CHUNK) by (nonlinear_arith)
                requires
                    i <= silent.len(),
            ;
        }
        if silent[i] {
            chain += 1;
            if is_at_start {
                current_start = i * CHUNK;
            }
        } else {
            if is_at_start {
                current_start = if current_start >= padding {
                    current_start - padding
                } else {
                    0
                };
                is_at_start = false;
            } else if chain >= params.min_silence_chunks {
                assert((i - chain) * CHUNK <= i * CHUNK) by (nonlinear_arith)
                    requires
                        0 <= chain <= i,
                ;
                sections.push((current_start, (i - chain) * CHUNK + padding));
                current_start = i * CHUNK - padding;
            }
            chain = 0;
        }
        i += 1;
    }
    proof {
        assert(silent@.take(i as int) =~= silent@);
        lemma_scan_bounds(*params, silent@);
        assert(chain * CHUNK <= silent.len() * CHUNK) by (nonlinear_arith)
            requires
                chain <= silent.len(),
        ;
    }
    if chain < params.min_trim_silence_chunks {
        chain = 0;
    }
    let cut = chain * CHUNK;
    if cut > samples {
        return None;
    }
    let padded = samples - cut + padding;
    let end = if padded < samples {
        padded
    } else {
        samples
    };
    sections.push((current_start, end));
    Some(sections)
}

} // verus!
