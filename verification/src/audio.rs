//! The audio mixer: the sample library, the sounds and notes that are
//! playing, the commands that change them, and the rendering of one chunk
//! of output. Frequencies are whole numbers of millihertz, amplitudes whole
//! numbers of envelope steps, and the waveform of each note is handed in by
//! the host as whole numbers too.

use vstd::hash_map::StringHashMap;
use vstd::prelude::*;

verus! {

/// Number of stereo frames in one chunk of output.
pub const CHUNK_SIZE: usize = 512;

/// Number of frames that an envelope takes from silence to full amplitude,
/// or back: 50 ms at 44100 frames a second. It is the full amplitude too.
pub const ENVELOPE_FRAMES: u32 = 2205;

/// Number of frames in a second of output.
pub const SAMPLE_RATE: u32 = 44100;

/// A command to the mixer.
#[derive(Debug)]
pub enum AudioCommand {
    /// Puts the samples that were read for `key` into the library.
    LoadSample(String, Vec<i16>),
    /// Starts to play the samples that the library has for `key`.
    PlaySample(String),
    /// Puts the given samples into the library under `key`.
    LoadSampleFromBuffer(String, Vec<i16>),
    /// Starts a note of the given frequency.
    NoteOn(u32),
    /// Lets the notes of the given frequency fade out.
    NoteOff(u32),
    /// Ends the mixer's loop.
    Quit,
}

/// What the host is to do after a command was handled.
#[derive(Clone, Copy, Debug, PartialEq, Eq, Structural)]
pub enum AudioAction {
    /// Nothing but to go on.
    Continue,
    /// Send the short attack burst of a note of this frequency to the device.
    AttackBurst(u32),
    /// Send the short release burst of a note of this frequency to the device.
    ReleaseBurst(u32),
    /// Leave the loop.
    Stop,
}

/// A note that is sounding.
#[derive(Clone, Copy, Debug, PartialEq, Eq, Structural)]
pub struct PlayingNote {
    /// Its frequency in millihertz.
    pub frequency: u32,
    /// The number of frames rendered since it began, from which the host
    /// computes the phase of its wave.
    pub phase: u64,
    /// Its amplitude, in steps of which `ENVELOPE_FRAMES` make the full one.
    pub amplitude: u32,
    /// Whether it fades out (towards silence) or in (towards the full amplitude).
    pub releasing: bool,
    /// Whether it still sounds.
    pub active: bool,
}

/// A sound that is playing, as contracts see it: its samples, one for each
/// frame, and the place of the next one to play.
pub struct SoundView {
    pub data: Seq<i16>,
    pub cursor: nat,
}

/// A sound that is playing.
#[derive(Debug)]
struct PlayingSound {
    data: Vec<i16>,
    cursor: usize,
}

impl View for PlayingSound {
    type V = SoundView;

    closed spec fn view(&self) -> SoundView {
        SoundView { data: self.data@, cursor: self.cursor as nat }
    }
}

/// The mixer as contracts see it.
pub struct MixerView {
    /// The samples that were loaded, by their key.
    pub library: Map<Seq<char>, Seq<i16>>,
    /// The sounds that are playing, oldest first.
    pub sounds: Seq<SoundView>,
    /// The notes that are sounding, oldest first.
    pub notes: Seq<PlayingNote>,
}

/// The mixer.
pub struct AudioMixer {
    samples: StringHashMap<Vec<i16>>,
    sounds: Vec<PlayingSound>,
    notes: Vec<PlayingNote>,
}

impl View for AudioMixer {
    type V = MixerView;

    closed spec fn view(&self) -> MixerView {
        MixerView {
            library: Map::new(
                |key: Seq<char>| self.samples@.contains_key(key),
                |key: Seq<char>| self.samples@[key]@,
            ),
            sounds: Seq::new(self.sounds@.len(), |i: int| self.sounds@[i]@),
            notes: self.notes@,
        }
    }
}

/// The note that `NoteOn` starts: silent, fading in.
pub open spec fn fresh_note(frequency: u32) -> PlayingNote {
    PlayingNote { frequency, phase: 0, amplitude: 0, releasing: false, active: true }
}

/// A note after a `NoteOff` for `frequency`: it fades out from then on if it
/// has that frequency and still sounds, and is untouched otherwise.
pub open spec fn released(note: PlayingNote, frequency: u32) -> PlayingNote {
    if note.frequency == frequency && note.active {
        PlayingNote { releasing: true, ..note }
    } else {
        note
    }
}

/// What the host is to do after `command`.
pub open spec fn action_for(command: AudioCommand) -> AudioAction {
    match command {
        AudioCommand::NoteOn(frequency) => AudioAction::AttackBurst(frequency),
        AudioCommand::NoteOff(frequency) => AudioAction::ReleaseBurst(frequency),
        AudioCommand::Quit => AudioAction::Stop,
        _ => AudioAction::Continue,
    }
}

impl MixerView {
    /// Every sound's cursor lies within its samples, and every note's
    /// amplitude within the envelope.
    pub open spec fn wf(self) -> bool {
        &&& forall|i: int| 0 <= i < self.sounds.len() ==> (#[trigger] self.sounds[i]).cursor
            <= self.sounds[i].data.len()
        &&& forall|i: int| 0 <= i < self.notes.len() ==> (#[trigger] self.notes[i]).amplitude
            <= ENVELOPE_FRAMES
    }

    /// The exact sum of all that is playing at sample `j` of the next chunk.
    pub open spec fn mix(self, waves: Seq<Vec<i16>>, j: int) -> int {
        sounds_sum(self.sounds, j) + notes_sum(
            self.notes,
            waves,
            gain_divisor(self.notes.len() as int),
            j,
        )
    }

    /// The mixer after one chunk was rendered: every sound and note has
    /// moved on by a chunk, and those that ended are gone.
    pub open spec fn rendered(self) -> MixerView {
        MixerView {
            library: self.library,
            sounds: live_sounds(Seq::new(self.sounds.len(), |i: int| sound_after(self.sounds[i]))),
            notes: notes_rendered(self.notes),
        }
    }

    /// The mixer after `command` was handled.
    pub open spec fn handled(self, command: AudioCommand) -> MixerView {
        match command {
            AudioCommand::LoadSample(key, data) => MixerView {
                library: self.library.insert(key@, data@),
                ..self
            },
            AudioCommand::LoadSampleFromBuffer(key, data) => MixerView {
                library: self.library.insert(key@, data@),
                ..self
            },
            AudioCommand::PlaySample(key) => if self.library.dom().contains(key@) {
                MixerView {
                    sounds: self.sounds.push(SoundView { data: self.library[key@], cursor: 0 }),
                    ..self
                }
            } else {
                self
            },
            AudioCommand::NoteOn(frequency) => MixerView {
                notes: self.notes.push(fresh_note(frequency)),
                ..self
            },
            AudioCommand::NoteOff(frequency) => MixerView {
                notes: Seq::new(self.notes.len(), |i: int| released(self.notes[i], frequency)),
                ..self
            },
            AudioCommand::Quit => self,
        }
    }
}

/// A sum of samples brought into the range of 16-bit samples.
pub open spec fn clamp16(v: int) -> i16 {
    if v < -32768 {
        -32768i16
    } else if v > 32767 {
        32767i16
    } else {
        v as i16
    }
}

/// The number of frames that a sound has left to play.
pub open spec fn frames_left(s: SoundView) -> int {
    s.data.len() - s.cursor
}

/// The number of frames that a sound plays in one chunk.
pub open spec fn frames_played(s: SoundView) -> int {
    if frames_left(s) < CHUNK_SIZE {
        frames_left(s)
    } else {
        CHUNK_SIZE as int
    }
}

/// What a sound adds to sample `j` of a chunk: frame `j / 2` of the chunk
/// takes the sample that lies `j / 2` places after the sound's cursor, on
/// both channels alike, and nothing once the sound has run out.
pub open spec fn sound_sample(s: SoundView, j: int) -> int {
    if j / 2 < frames_left(s) {
        s.data[s.cursor + j / 2] as int
    } else {
        0
    }
}

/// A sound after one chunk: its cursor has moved past the frames it played.
pub open spec fn sound_after(s: SoundView) -> SoundView {
    SoundView { cursor: (s.cursor + frames_played(s)) as nat, ..s }
}

/// What sounds add together to sample `j` of a chunk.
pub open spec fn sounds_sum(sounds: Seq<SoundView>, j: int) -> int
    decreases sounds.len(),
{
    if sounds.len() == 0 {
        0
    } else {
        sounds_sum(sounds.drop_last(), j) + sound_sample(sounds.last(), j)
    }
}

/// The sounds that go on after a chunk: those whose cursor has not reached
/// the end of their samples.
pub open spec fn live_sounds(sounds: Seq<SoundView>) -> Seq<SoundView>
    decreases sounds.len(),
{
    if sounds.len() == 0 {
        sounds
    } else if sounds[0].cursor < sounds[0].data.len() {
        seq![sounds[0]] + live_sounds(sounds.drop_first())
    } else {
        live_sounds(sounds.drop_first())
    }
}

/// The amplitude of a note `k` frames on: one step up a frame until it is
/// full, or one step down a frame until it is silent.
pub open spec fn envelope(note: PlayingNote, k: int) -> int {
    if note.releasing {
        if note.amplitude - k < 0 {
            0
        } else {
            note.amplitude - k
        }
    } else {
        if note.amplitude + k > ENVELOPE_FRAMES {
            ENVELOPE_FRAMES as int
        } else {
            note.amplitude + k
        }
    }
}

/// The number that the gain of each note is divided by: the number of
/// notes, and one if there is none.
pub open spec fn gain_divisor(notes: int) -> int {
    if notes < 1 {
        1
    } else {
        notes
    }
}

/// A sample of a note's wave at the given amplitude, with three tenths of
/// the full gain shared among `voices` notes, rounded towards zero.
pub open spec fn scaled(wave: int, amplitude: int, voices: int) -> int {
    let divisor = ENVELOPE_FRAMES * 10 * voices;
    if wave >= 0 {
        (wave * amplitude * 3) / divisor
    } else {
        -(((-wave) * amplitude * 3) / divisor)
    }
}

/// What a note adds to sample `j` of a chunk, both channels alike.
pub open spec fn note_sample(note: PlayingNote, wave: Seq<i16>, voices: int, j: int) -> int {
    if note.active {
        scaled(wave[j / 2] as int, envelope(note, j / 2 + 1), voices)
    } else {
        0
    }
}

/// What notes add together to sample `j` of a chunk, note `i` with the wave
/// `waves[i]`.
pub open spec fn notes_sum(notes: Seq<PlayingNote>, waves: Seq<Vec<i16>>, voices: int, j: int) -> int
    decreases notes.len(),
{
    if notes.len() == 0 {
        0
    } else {
        notes_sum(notes.drop_last(), waves, voices, j) + note_sample(
            notes.last(),
            waves[notes.len() - 1]@,
            voices,
            j,
        )
    }
}

/// A note after one chunk. One that fades out and reaches silence before
/// the chunk's last frame sounds no longer.
pub open spec fn note_after(note: PlayingNote) -> PlayingNote {
    if note.active {
        PlayingNote {
            phase: ((note.phase + CHUNK_SIZE) % 0x1_0000_0000_0000_0000) as u64,
            amplitude: envelope(note, CHUNK_SIZE as int) as u32,
            active: !(note.releasing && note.amplitude < CHUNK_SIZE),
            ..note
        }
    } else {
        note
    }
}

/// The notes that go on after a chunk: those that still sound.
pub open spec fn live_notes(notes: Seq<PlayingNote>) -> Seq<PlayingNote>
    decreases notes.len(),
{
    if notes.len() == 0 {
        notes
    } else if notes[0].active {
        seq![notes[0]] + live_notes(notes.drop_first())
    } else {
        live_notes(notes.drop_first())
    }
}

/// What goes on after a chunk was among what played before it.
proof fn lemma_live_sounds_within(sounds: Seq<SoundView>)
    ensures
        forall|i: int|
            0 <= i < live_sounds(sounds).len() ==> sounds.contains(#[trigger] live_sounds(sounds)[i]),
    decreases sounds.len(),
{
    if sounds.len() > 0 {
        let rest = sounds.drop_first();
        lemma_live_sounds_within(rest);
        assert forall|i: int| 0 <= i < live_sounds(sounds).len() implies sounds.contains(
            #[trigger] live_sounds(sounds)[i],
        ) by {
            let x = live_sounds(sounds)[i];
            if sounds[0].cursor < sounds[0].data.len() && i == 0 {
                assert(sounds[0] == x);
            } else {
                let k = if sounds[0].cursor < sounds[0].data.len() { i - 1 } else { i };
                assert(live_sounds(rest)[k] == x);
                assert(rest.contains(x));
                let m = choose|m: int| 0 <= m < rest.len() && rest[m] == x;
                assert(sounds[m + 1] == x);
            }
        }
    }
}

/// The notes that go on after a chunk were among the notes before it, and
/// every one of them still sounds.
proof fn lemma_live_notes_within(notes: Seq<PlayingNote>)
    ensures
        forall|i: int|
            0 <= i < live_notes(notes).len() ==> notes.contains(#[trigger] live_notes(notes)[i])
                && live_notes(notes)[i].active,
    decreases notes.len(),
{
    if notes.len() > 0 {
        let rest = notes.drop_first();
        lemma_live_notes_within(rest);
        assert forall|i: int| 0 <= i < live_notes(notes).len() implies notes.contains(
            #[trigger] live_notes(notes)[i],
        ) && live_notes(notes)[i].active by {
            let x = live_notes(notes)[i];
            if notes[0].active && i == 0 {
                assert(notes[0] == x);
            } else {
                let k = if notes[0].active { i - 1 } else { i };
                assert(live_notes(rest)[k] == x);
                assert(rest.contains(x));
                let m = choose|m: int| 0 <= m < rest.len() && rest[m] == x;
                assert(notes[m + 1] == x);
            }
        }
    }
}

/// Notes that no longer sound do not go on after a chunk: if none of the
/// notes sounds, none is left.
pub proof fn lemma_silent_notes_leave(notes: Seq<PlayingNote>)
    requires
        forall|i: int| 0 <= i < notes.len() ==> !(#[trigger] notes[i]).active,
    ensures
        live_notes(notes).len() == 0,
    decreases notes.len(),
{
    if notes.len() > 0 {
        assert(!notes[0].active);
        let rest = notes.drop_first();
        assert forall|i: int| 0 <= i < rest.len() implies !(#[trigger] rest[i]).active by {
            assert(rest[i] == notes[i + 1]);
        }
        lemma_silent_notes_leave(rest);
    }
}

/// A note that fades out sounds no longer after five chunks, which is the
/// time of a release and one frame, in whole chunks.
pub proof fn lemma_release_ends(note: PlayingNote)
    requires
        note.releasing,
        note.amplitude <= ENVELOPE_FRAMES,
    ensures
        !note_after(note_after(note_after(note_after(note_after(note))))).active,
{
    let n1 = note_after(note);
    let n2 = note_after(n1);
    let n3 = note_after(n2);
    let n4 = note_after(n3);
    assert(n1.releasing && n2.releasing && n3.releasing && n4.releasing);
    assert(n1.active ==> n1.amplitude <= ENVELOPE_FRAMES - 512);
    assert(n2.active ==> n2.amplitude <= ENVELOPE_FRAMES - 1024);
    assert(n3.active ==> n3.amplitude <= ENVELOPE_FRAMES - 1536);
    assert(n4.active ==> n4.amplitude <= ENVELOPE_FRAMES - 2048);
}

/// Whether every note of a list fades out with an amplitude of `top` at most.
pub open spec fn all_fading(notes: Seq<PlayingNote>, top: int) -> bool {
    forall|i: int|
        0 <= i < notes.len() ==> (#[trigger] notes[i]).releasing && notes[i].amplitude <= top
}

/// The notes of a list after one chunk, those that have ended left out.
pub open spec fn notes_rendered(notes: Seq<PlayingNote>) -> Seq<PlayingNote> {
    live_notes(Seq::new(notes.len(), |i: int| note_after(notes[i])))
}

/// Notes that fade out are a chunk's worth quieter after a chunk, and gone
/// if they had less than a chunk to go.
proof fn lemma_fading_chunk(notes: Seq<PlayingNote>, top: int)
    requires
        all_fading(notes, top),
    ensures
        all_fading(notes_rendered(notes), top - CHUNK_SIZE),
        top < CHUNK_SIZE ==> notes_rendered(notes).len() == 0,
{
    let moved = Seq::new(notes.len(), |i: int| note_after(notes[i]));
    let left = notes_rendered(notes);
    lemma_live_notes_within(moved);
    assert forall|i: int| 0 <= i < left.len() implies (#[trigger] left[i]).releasing
        && left[i].amplitude <= top - CHUNK_SIZE by {
        let x = left[i];
        assert(moved.contains(x));
        let m = choose|m: int| 0 <= m < moved.len() && moved[m] == x;
        assert(x == note_after(notes[m]));
        assert(notes[m].releasing && notes[m].amplitude <= top);
        assert(x.active);
    }
    if top < CHUNK_SIZE {
        assert forall|i: int| 0 <= i < moved.len() implies !(#[trigger] moved[i]).active by {
            assert(notes[i].releasing && notes[i].amplitude <= top);
        }
        lemma_silent_notes_leave(moved);
    }
}

/// Once every note fades out, none is left after five chunks: the time of
/// a release, and the frame in which the silence is noticed, in whole chunks.
pub proof fn lemma_released_notes_end(v: MixerView)
    requires
        all_fading(v.notes, ENVELOPE_FRAMES as int),
    ensures
        v.rendered().rendered().rendered().rendered().rendered().notes.len() == 0,
{
    let n0 = v.notes;
    let n1 = notes_rendered(n0);
    let n2 = notes_rendered(n1);
    let n3 = notes_rendered(n2);
    let n4 = notes_rendered(n3);
    lemma_fading_chunk(n0, 2205);
    lemma_fading_chunk(n1, 1693);
    lemma_fading_chunk(n2, 1181);
    lemma_fading_chunk(n3, 669);
    lemma_fading_chunk(n4, 157);
    assert(v.rendered().notes == n1);
    assert(v.rendered().rendered().notes == n2);
    assert(v.rendered().rendered().rendered().notes == n3);
    assert(v.rendered().rendered().rendered().rendered().notes == n4);
}

/// A `NoteOff` leaves every note of its frequency fading out.
pub proof fn lemma_note_off_releases(v: MixerView, frequency: u32, i: int)
    requires
        0 <= i < v.notes.len(),
        v.notes[i].frequency == frequency,
        v.notes[i].active,
    ensures
        v.handled(AudioCommand::NoteOff(frequency)).notes[i].releasing,
{
}

/// A note that is switched on and at once off again is gone after the next
/// chunk: a mixer without notes is without notes again.
pub proof fn lemma_note_on_off(v: MixerView, frequency: u32)
    requires
        v.notes.len() == 0,
    ensures
        v.handled(AudioCommand::NoteOn(frequency)).handled(
            AudioCommand::NoteOff(frequency),
        ).rendered().notes.len() == 0,
{
    let on = v.handled(AudioCommand::NoteOn(frequency));
    let off = on.handled(AudioCommand::NoteOff(frequency));
    assert(on.notes.len() == 1);
    assert(off.notes.len() == 1);
    assert(off.notes[0] == released(on.notes[0], frequency));
    let moved = Seq::new(off.notes.len(), |i: int| note_after(off.notes[i]));
    assert(!moved[0].active);
    lemma_silent_notes_leave(moved);
}

/// A `NoteOff` for a frequency that no note has changes nothing.
pub proof fn lemma_note_off_without_note(v: MixerView, frequency: u32)
    requires
        forall|i: int| 0 <= i < v.notes.len() ==> (#[trigger] v.notes[i]).frequency != frequency,
    ensures
        v.handled(AudioCommand::NoteOff(frequency)) == v,
{
    assert(v.handled(AudioCommand::NoteOff(frequency)).notes =~= v.notes);
}

/// What one note adds to a sample, times the divisor of its gain, is within
/// three tenths of the 16-bit range.
proof fn lemma_note_sample_bound(note: PlayingNote, wave: Seq<i16>, voices: int, j: int)
    requires
        note.amplitude <= ENVELOPE_FRAMES,
        voices >= 1,
        0 <= j < 2 * CHUNK_SIZE,
        wave.len() == CHUNK_SIZE,
    ensures
        -216760320 <= note_sample(note, wave, voices, j) * (22050 * voices) <= 216760320,
{
    if note.active {
        let w = wave[j / 2] as int;
        let a = envelope(note, j / 2 + 1);
        let d = 22050 * voices;
        let magnitude = if w >= 0 { w } else { -w };
        let product = magnitude * a * 3;
        assert(0 <= magnitude * a <= 32768 * 2205) by (nonlinear_arith)
            requires
                0 <= magnitude <= 32768,
                0 <= a <= 2205,
        ;
        assert(ENVELOPE_FRAMES * 10 * voices == d);
        let q = product / d;
        vstd::arithmetic::div_mod::lemma_fundamental_div_mod(product, d);
        vstd::arithmetic::div_mod::lemma_div_pos_is_pos(product, d);
        assert(0 <= q * d <= product) by (nonlinear_arith)
            requires
                product == d * q + product % d,
                0 <= product % d,
                q >= 0,
                d > 0,
        ;
        if w >= 0 {
            assert(note_sample(note, wave, voices, j) == q);
        } else {
            assert(note_sample(note, wave, voices, j) == -q);
            assert((-q) * d == -(q * d)) by (nonlinear_arith);
        }
    } else {
        assert(0 * (22050 * voices) == 0) by (nonlinear_arith);
    }
}

/// What the first notes of a list add together, times the divisor of their gain.
proof fn lemma_notes_sum_bound(notes: Seq<PlayingNote>, waves: Seq<Vec<i16>>, voices: int, j: int)
    requires
        forall|i: int| 0 <= i < notes.len() ==> (#[trigger] notes[i]).amplitude <= ENVELOPE_FRAMES,
        notes.len() <= waves.len(),
        forall|i: int| 0 <= i < waves.len() ==> (#[trigger] waves[i])@.len() == CHUNK_SIZE,
        voices >= 1,
        0 <= j < 2 * CHUNK_SIZE,
    ensures
        -216760320 * notes.len() <= notes_sum(notes, waves, voices, j) * (22050 * voices)
            <= 216760320 * notes.len(),
    decreases notes.len(),
{
    if notes.len() == 0 {
        assert(0 * (22050 * voices) == 0) by (nonlinear_arith);
    } else {
        let rest = notes.drop_last();
        assert forall|i: int| 0 <= i < rest.len() implies (#[trigger] rest[i]).amplitude
            <= ENVELOPE_FRAMES by {
            assert(rest[i] == notes[i]);
        }
        lemma_notes_sum_bound(rest, waves, voices, j);
        let last = note_sample(notes.last(), waves[notes.len() - 1]@, voices, j);
        lemma_note_sample_bound(notes.last(), waves[notes.len() - 1]@, voices, j);
        let d = 22050 * voices;
        let before = notes_sum(rest, waves, voices, j);
        assert((before + last) * d == before * d + last * d) by (nonlinear_arith);
    }
}

/// The first notes of a list, with the gain shared among as many voices
/// as there are notes or more, add up to three tenths of the 16-bit range
/// at most.
proof fn lemma_notes_share_gain(notes: Seq<PlayingNote>, waves: Seq<Vec<i16>>, voices: int, j: int)
    requires
        forall|i: int| 0 <= i < notes.len() ==> (#[trigger] notes[i]).amplitude <= ENVELOPE_FRAMES,
        notes.len() <= waves.len(),
        forall|i: int| 0 <= i < waves.len() ==> (#[trigger] waves[i])@.len() == CHUNK_SIZE,
        voices >= 1,
        notes.len() <= voices,
        0 <= j < 2 * CHUNK_SIZE,
    ensures
        -9830 <= notes_sum(notes, waves, voices, j) <= 9830,
{
    let sum = notes_sum(notes, waves, voices, j);
    lemma_notes_sum_bound(notes, waves, voices, j);
    let n = notes.len() as int;
    assert(-9830 <= sum <= 9830) by (nonlinear_arith)
        requires
            -216760320 * n <= sum * (22050 * voices) <= 216760320 * n,
            voices >= 1,
            0 <= n <= voices,
    ;
}

/// However many notes sound together, their sum stays within three tenths
/// of the 16-bit range, so that notes alone are never clipped.
pub proof fn lemma_notes_never_clip(notes: Seq<PlayingNote>, waves: Seq<Vec<i16>>, j: int)
    requires
        forall|i: int| 0 <= i < notes.len() ==> (#[trigger] notes[i]).amplitude <= ENVELOPE_FRAMES,
        notes.len() == waves.len(),
        forall|i: int| 0 <= i < waves.len() ==> (#[trigger] waves[i])@.len() == CHUNK_SIZE,
        0 <= j < 2 * CHUNK_SIZE,
    ensures
        -9830 <= notes_sum(notes, waves, gain_divisor(notes.len() as int), j) <= 9830,
        clamp16(notes_sum(notes, waves, gain_divisor(notes.len() as int), j)) == notes_sum(
            notes,
            waves,
            gain_divisor(notes.len() as int),
            j,
        ),
{
    lemma_notes_share_gain(notes, waves, gain_divisor(notes.len() as int), j);
}

/// A mixer without sounds renders a chunk that is the sum of its notes, in
/// no sample beyond three tenths of the 16-bit range, however many the
/// notes are.
pub proof fn lemma_notes_alone_never_clip(v: MixerView, waves: Seq<Vec<i16>>, j: int)
    requires
        v.wf(),
        v.sounds.len() == 0,
        v.notes.len() == waves.len(),
        forall|i: int| 0 <= i < waves.len() ==> (#[trigger] waves[i])@.len() == CHUNK_SIZE,
        0 <= j < 2 * CHUNK_SIZE,
    ensures
        -9830 <= v.mix(waves, j) <= 9830,
        clamp16(v.mix(waves, j)) == v.mix(waves, j),
{
    lemma_notes_never_clip(v.notes, waves, j);
}

/// One sample of a note, scaled to its amplitude and its share of the gain.
fn scale(wave: i16, amplitude: u32, voices: usize) -> (v: i32)
    requires
        amplitude <= ENVELOPE_FRAMES,
        1 <= voices,
    ensures
        v == scaled(wave as int, amplitude as int, voices as int),
        -9831 <= v <= 9831,
{
    let divisor: u128 = 22050 * (voices as u128);
    let magnitude: u128 = if wave >= 0 { wave as u128 } else { (-(wave as i64)) as u128 };
    proof {
        assert(magnitude * amplitude <= 32768 * 2205) by (nonlinear_arith)
            requires
                magnitude <= 32768,
                amplitude <= 2205,
        ;
    }
    let product: u128 = magnitude * (amplitude as u128) * 3;
    let q: u128 = product / divisor;
    proof {
        vstd::arithmetic::div_mod::lemma_div_is_ordered_by_denominator(
            product as int,
            22050,
            divisor as int,
        );
        vstd::arithmetic::div_mod::lemma_div_is_ordered(product as int, 216760320, 22050);
        assert(ENVELOPE_FRAMES * 10 * voices == divisor);
    }
    if wave >= 0 {
        q as i32
    } else {
        -(q as i32)
    }
}

/// A copy of `samples`.
fn copy_samples(samples: &Vec<i16>) -> (copy: Vec<i16>)
    ensures
        copy@ == samples@,
{
    let mut copy: Vec<i16> = Vec::new();
    let mut i: usize = 0;
    while i < samples.len()
        invariant
            i <= samples.len(),
            copy@ == samples@.take(i as int),
        decreases samples.len() - i,
    {
        copy.push(samples[i]);
        proof {
            assert(samples@.take(i + 1) =~= samples@.take(i as int).push(samples@[i as int]));
        }
        i += 1;
    }
    proof {
        assert(samples@.take(i as int) =~= samples@);
    }
    copy
}

impl AudioMixer {
    /// A mixer with an empty library and nothing playing.
    pub fn new() -> (mixer: Self)
        ensures
            mixer@.library == Map::<Seq<char>, Seq<i16>>::empty(),
            mixer@.sounds.len() == 0,
            mixer@.notes.len() == 0,
            mixer@.wf(),
    {
        let mixer = AudioMixer {
            samples: StringHashMap::new(),
            sounds: Vec::new(),
            notes: Vec::new(),
        };
        assert(mixer@.library =~= Map::<Seq<char>, Seq<i16>>::empty());
        mixer
    }

    /// The number of sounds that are playing.
    pub fn sound_count(&self) -> (n: usize)
        ensures
            n == self@.sounds.len(),
    {
        self.sounds.len()
    }

    /// The number of notes that are sounding.
    pub fn note_count(&self) -> (n: usize)
        ensures
            n == self@.notes.len(),
    {
        self.notes.len()
    }

    /// The note at place `i`, counted from the oldest.
    pub fn note(&self, i: usize) -> (n: PlayingNote)
        requires
            i < self@.notes.len(),
        ensures
            n == self@.notes[i as int],
    {
        self.notes[i]
    }

    /// Whether the library has samples for `key`.
    pub fn has_sample(&self, key: &String) -> (b: bool)
        ensures
            b == self@.library.dom().contains(key@),
    {
        self.samples.contains_key(key.as_str())
    }

    /// Puts `data` into the library under `key`, in the place of what was
    /// there under that key, if anything.
    fn store(&mut self, key: String, data: Vec<i16>)
        ensures
            final(self).sounds == old(self).sounds,
            final(self).notes == old(self).notes,
            final(self)@.library == old(self)@.library.insert(key@, data@),
    {
        self.samples.insert(key, data);
        assert(self@.library =~= old(self)@.library.insert(key@, data@));
    }

    /// Handles one command and says what the host is to do after it.
    pub fn handle(&mut self, command: AudioCommand) -> (action: AudioAction)
        requires
            old(self)@.wf(),
        ensures
            final(self)@.wf(),
            final(self)@ == old(self)@.handled(command),
            action == action_for(command),
    {
        match command {
            AudioCommand::LoadSample(key, data) => {
                self.store(key, data);
                assert(self@.sounds =~= old(self)@.sounds);
                AudioAction::Continue
            },
            AudioCommand::LoadSampleFromBuffer(key, data) => {
                self.store(key, data);
                assert(self@.sounds =~= old(self)@.sounds);
                AudioAction::Continue
            },
            AudioCommand::PlaySample(key) => {
                match self.samples.get(key.as_str()) {
                    Some(samples) => {
                        let data = copy_samples(samples);
                        self.sounds.push(PlayingSound { data, cursor: 0 });
                        assert(self@.sounds =~= old(self)@.sounds.push(
                            SoundView { data: old(self)@.library[key@], cursor: 0 },
                        ));
                    },
                    None => {},
                }
                AudioAction::Continue
            },
            AudioCommand::NoteOn(frequency) => {
                self.notes.push(
                    PlayingNote {
                        frequency,
                        phase: 0,
                        amplitude: 0,
                        releasing: false,
                        active: true,
                    },
                );
                assert(self@.sounds =~= old(self)@.sounds);
                AudioAction::AttackBurst(frequency)
            },
            AudioCommand::NoteOff(frequency) => {
                let mut i: usize = 0;
                while i < self.notes.len()
                    invariant
                        i <= self.notes@.len(),
                        self.notes@.len() == old(self).notes@.len(),
                        self.samples == old(self).samples,
                        self.sounds == old(self).sounds,
                        forall|k: int|
                            0 <= k < i ==> self.notes@[k] == released(old(self).notes@[k], frequency),
                        forall|k: int| i <= k < self.notes@.len() ==> self.notes@[k] == old(
                            self,
                        ).notes@[k],
                    decreases self.notes@.len() - i,
                {
                    let mut note = self.notes[i];
                    if note.frequency == frequency && note.active {
                        note.releasing = true;
                    }
                    self.notes.set(i, note);
                    i += 1;
                }
                assert(self@.notes =~= old(self)@.handled(command).notes);
                assert(self@.sounds =~= old(self)@.sounds);
                AudioAction::ReleaseBurst(frequency)
            },
            AudioCommand::Quit => AudioAction::Stop,
        }
    }

    /// Renders one chunk: every sample of the output is the exact sum of what
    /// the sounds and the notes add to it, brought into the 16-bit range.
    /// `waves[i]` holds the wave of note `i` for each frame of the chunk, at
    /// full amplitude. After the chunk, the sounds and notes that have ended
    /// are gone. The sums are kept wide enough for any number of sounds and
    /// notes.
    #[verifier::rlimit(50)]
    pub fn render_chunk(&mut self, waves: &Vec<Vec<i16>>) -> (out: Vec<i16>)
        requires
            old(self)@.wf(),
            waves@.len() == old(self)@.notes.len(),
            forall|n: int| 0 <= n < waves@.len() ==> (#[trigger] waves@[n])@.len() == CHUNK_SIZE,
        ensures
            final(self)@.wf(),
            final(self)@ == old(self)@.rendered(),
            out@.len() == 2 * CHUNK_SIZE,
            forall|j: int|
                0 <= j < 2 * CHUNK_SIZE ==> #[trigger] out@[j] == clamp16(old(self)@.mix(waves@, j)),
    {
        let ghost before = self@;
        let mut mix: Vec<i128> = Vec::new();
        let mut k: usize = 0;
        while k < 2 * CHUNK_SIZE
            invariant
                k <= 2 * CHUNK_SIZE,
                mix@.len() == k,
                forall|j: int| 0 <= j < k ==> mix@[j] == 0,
            decreases 2 * CHUNK_SIZE - k,
        {
            mix.push(0);
            k += 1;
        }
        self.mix_sounds(&mut mix);
        let ghost sounds_only = mix@;
        proof {
            assert forall|i: int| 0 <= i < self@.sounds.len() implies (#[trigger] self@.sounds[i]).cursor
                <= self@.sounds[i].data.len() by {
                assert(self@.sounds[i] == sound_after(before.sounds[i]));
                assert(before.sounds[i].cursor <= before.sounds[i].data.len());
            }
        }
        self.mix_notes(waves, &mut mix);
        let mut out: Vec<i16> = Vec::new();
        let mut j: usize = 0;
        while j < 2 * CHUNK_SIZE
            invariant
                j <= 2 * CHUNK_SIZE,
                mix@.len() == 2 * CHUNK_SIZE,
                out@.len() == j,
                forall|i: int| 0 <= i < j ==> #[trigger] out@[i] == clamp16(mix@[i] as int),
            decreases 2 * CHUNK_SIZE - j,
        {
            let v: i128 = mix[j];
            let clamped: i16 = if v < -32768 {
                -32768
            } else if v > 32767 {
                32767
            } else {
                v as i16
            };
            out.push(clamped);
            j += 1;
        }
        proof {
            assert forall|i: int| 0 <= i < 2 * CHUNK_SIZE implies #[trigger] out@[i] == clamp16(
                before.mix(waves@, i),
            ) by {
                assert(mix@[i] == sounds_only[i] + notes_sum(
                    before.notes,
                    waves@,
                    gain_divisor(before.notes.len() as int),
                    i,
                ));
                assert(sounds_only[i] == sounds_sum(before.sounds, i));
            }
        }
        let ghost moved = self@;
        self.drop_ended_sounds();
        self.drop_silent_notes();
        proof {
            assert(self@.library == before.library);
            assert(self@.sounds == live_sounds(moved.sounds));
            assert(self@.notes == live_notes(moved.notes));
            lemma_live_sounds_within(moved.sounds);
            lemma_live_notes_within(moved.notes);
            assert forall|i: int| 0 <= i < self@.sounds.len() implies (#[trigger] self@.sounds[i]).cursor
                <= self@.sounds[i].data.len() by {
                let x = self@.sounds[i];
                assert(moved.sounds.contains(x));
                let m = choose|m: int| 0 <= m < moved.sounds.len() && moved.sounds[m] == x;
                assert(moved.sounds[m] == sound_after(before.sounds[m]));
                assert(before.sounds[m].cursor <= before.sounds[m].data.len());
            }
            assert forall|i: int| 0 <= i < self@.notes.len() implies (#[trigger] self@.notes[i]).amplitude
                <= ENVELOPE_FRAMES by {
                let x = self@.notes[i];
                assert(moved.notes.contains(x));
                let m = choose|m: int| 0 <= m < moved.notes.len() && moved.notes[m] == x;
                assert(moved.notes[m] == note_after(before.notes[m]));
                assert(before.notes[m].amplitude <= ENVELOPE_FRAMES);
            }
        }
        out
    }

    /// Adds the next frames of every sound to `mix`, each on both channels,
    /// and moves the cursors on.
    #[verifier::rlimit(50)]
    fn mix_sounds(&mut self, mix: &mut Vec<i128>)
        requires
            old(self)@.wf(),
            old(mix)@.len() == 2 * CHUNK_SIZE,
            forall|j: int| 0 <= j < 2 * CHUNK_SIZE ==> old(mix)@[j] == 0,
        ensures
            final(mix)@.len() == 2 * CHUNK_SIZE,
            forall|j: int|
                0 <= j < 2 * CHUNK_SIZE ==> final(mix)@[j] == sounds_sum(old(self)@.sounds, j),
            forall|j: int|
                0 <= j < 2 * CHUNK_SIZE ==> -32768 * usize::MAX <= #[trigger] final(mix)@[j] <= 32768
                    * usize::MAX,
            final(self)@.library == old(self)@.library,
            final(self)@.notes == old(self)@.notes,
            final(self)@.sounds == Seq::new(
                old(self)@.sounds.len(),
                |i: int| sound_after(old(self)@.sounds[i]),
            ),
    {
        let ghost before = self@;
        let count: usize = self.sounds.len();
        let mut s: usize = 0;
        while s < count
            invariant
                s <= count,
                count == before.sounds.len(),
                before.wf(),
                self.sounds@.len() == count,
                self.samples == old(self).samples,
                self.notes == old(self).notes,
                before == old(self)@,
                mix@.len() == 2 * CHUNK_SIZE,
                forall|j: int|
                    0 <= j < 2 * CHUNK_SIZE ==> mix@[j] == sounds_sum(before.sounds.take(s as int), j),
                forall|j: int|
                    0 <= j < 2 * CHUNK_SIZE ==> -32768 * s <= #[trigger] mix@[j] <= 32768 * s,
                forall|k: int| 0 <= k < s ==> self.sounds@[k]@ == sound_after(before.sounds[k]),
                forall|k: int| s <= k < count ==> self.sounds@[k]@ == before.sounds[k],
            decreases count - s,
        {
            let ghost base = mix@;
            let ghost sound = before.sounds[s as int];
            assert(sound == self.sounds@[s as int]@);
            let cursor: usize = self.sounds[s].cursor;
            let len: usize = self.sounds[s].data.len();
            let left: usize = len - cursor;
            let frames: usize = if left < CHUNK_SIZE { left } else { CHUNK_SIZE };
            let mut i: usize = 0;
            while i < frames
                invariant
                    i <= frames <= CHUNK_SIZE,
                    frames <= left,
                    left == frames_left(sound),
                    (s as int) < self.sounds@.len(),
                    sound == self.sounds@[s as int]@,
                    cursor == sound.cursor,
                    len == sound.data.len(),
                    cursor <= len,
                    mix@.len() == 2 * CHUNK_SIZE,
                    base.len() == 2 * CHUNK_SIZE,
                    forall|j: int|
                        0 <= j < 2 * CHUNK_SIZE ==> -32768 * s <= #[trigger] base[j] <= 32768 * s,
                    forall|j: int|
                        0 <= j < 2 * i ==> mix@[j] == base[j] + sound_sample(sound, j),
                    forall|j: int| 2 * i <= j < 2 * CHUNK_SIZE ==> mix@[j] == base[j],
                decreases frames - i,
            {
                let v: i128 = self.sounds[s].data[cursor + i] as i128;
                assert(base[2 * i as int] == mix@[2 * i as int]);
                assert(base[2 * i + 1] == mix@[2 * i + 1]);
                let a: i128 = mix[2 * i] + v;
                let b: i128 = mix[2 * i + 1] + v;
                mix.set(2 * i, a);
                mix.set(2 * i + 1, b);
                assert((2 * i as int) / 2 == i);
                assert((2 * i + 1) / 2 == i as int);
                i += 1;
            }
            self.sounds[s].cursor = cursor + frames;
            proof {
                assert(self.sounds@[s as int]@ == sound_after(sound));
                assert(before.sounds.take(s + 1).drop_last() =~= before.sounds.take(s as int));
                assert forall|j: int| 0 <= j < 2 * CHUNK_SIZE implies mix@[j] == sounds_sum(
                    before.sounds.take(s + 1),
                    j,
                ) by {
                    assert(before.sounds.take(s + 1).last() == sound);
                    assert(base[j] == sounds_sum(before.sounds.take(s as int), j));
                    if j >= 2 * i {
                        assert(j / 2 >= frames);
                        assert(sound_sample(sound, j) == 0);
                    } else {
                        assert(mix@[j] == base[j] + sound_sample(sound, j));
                    }
                }
                assert forall|j: int| 0 <= j < 2 * CHUNK_SIZE implies -32768 * (s + 1)
                    <= #[trigger] mix@[j] <= 32768 * (s + 1) by {
                    assert(-32768 * s <= base[j] <= 32768 * s);
                    if j < 2 * i {
                        assert(mix@[j] == base[j] + sound_sample(sound, j));
                    }
                }
            }
            s += 1;
        }
        proof {
            assert(before.sounds.take(s as int) =~= before.sounds);
            assert(self@.sounds =~= Seq::new(
                before.sounds.len(),
                |i: int| sound_after(before.sounds[i]),
            ));
        }
    }

    /// Adds one chunk of every note to `mix` and moves the notes on.
    #[verifier::rlimit(50)]
    fn mix_notes(&mut self, waves: &Vec<Vec<i16>>, mix: &mut Vec<i128>)
        requires
            old(self)@.wf(),
            waves@.len() == old(self)@.notes.len(),
            forall|n: int| 0 <= n < waves@.len() ==> (#[trigger] waves@[n])@.len() == CHUNK_SIZE,
            old(mix)@.len() == 2 * CHUNK_SIZE,
            forall|j: int|
                0 <= j < 2 * CHUNK_SIZE ==> -32768 * usize::MAX <= #[trigger] old(mix)@[j] <= 32768
                    * usize::MAX,
        ensures
            final(mix)@.len() == 2 * CHUNK_SIZE,
            forall|j: int|
                0 <= j < 2 * CHUNK_SIZE ==> #[trigger] final(mix)@[j] == old(mix)@[j] + notes_sum(
                    old(self)@.notes,
                    waves@,
                    gain_divisor(old(self)@.notes.len() as int),
                    j,
                ),
            final(self)@.library == old(self)@.library,
            final(self)@.sounds == old(self)@.sounds,
            final(self)@.notes == Seq::new(
                old(self)@.notes.len(),
                |i: int| note_after(old(self)@.notes[i]),
            ),
    {
        let ghost before = self@;
        let ghost first = mix@;
        let count: usize = self.notes.len();
        let voices: usize = if count < 1 { 1 } else { count };
        let mut n: usize = 0;
        proof {
            assert forall|j: int| 0 <= j < 2 * CHUNK_SIZE implies -9830 <= #[trigger] notes_sum(
                before.notes.take(0),
                waves@,
                voices as int,
                j,
            ) <= 9830 by {}
        }
        while n < count
            invariant
                n <= count,
                count == before.notes.len(),
                voices == gain_divisor(count as int),
                before.wf(),
                before == old(self)@,
                first == old(mix)@,
                self.notes@.len() == count,
                self.samples == old(self).samples,
                self.sounds == old(self).sounds,
                waves@.len() == count,
                forall|k: int| 0 <= k < waves@.len() ==> (#[trigger] waves@[k])@.len() == CHUNK_SIZE,
                mix@.len() == 2 * CHUNK_SIZE,
                first.len() == 2 * CHUNK_SIZE,
                forall|j: int|
                    0 <= j < 2 * CHUNK_SIZE ==> -32768 * usize::MAX <= #[trigger] first[j] <= 32768
                        * usize::MAX,
                forall|j: int|
                    0 <= j < 2 * CHUNK_SIZE ==> #[trigger] mix@[j] == first[j] + notes_sum(
                        before.notes.take(n as int),
                        waves@,
                        voices as int,
                        j,
                    ),
                forall|j: int|
                    0 <= j < 2 * CHUNK_SIZE ==> -9830 <= #[trigger] notes_sum(
                        before.notes.take(n as int),
                        waves@,
                        voices as int,
                        j,
                    ) <= 9830,
                forall|k: int| 0 <= k < n ==> self.notes@[k] == note_after(before.notes[k]),
                forall|k: int| n <= k < count ==> self.notes@[k] == before.notes[k],
            decreases count - n,
        {
            let ghost base = mix@;
            let start = self.notes[n];
            assert(start == before.notes[n as int]);
            assert(start.amplitude <= ENVELOPE_FRAMES);
            proof {
                assert forall|j: int| 0 <= j < 2 * CHUNK_SIZE implies -32768 * usize::MAX - 9830
                    <= #[trigger] base[j] <= 32768 * usize::MAX + 9830 by {
                    assert(base[j] == first[j] + notes_sum(
                        before.notes.take(n as int),
                        waves@,
                        voices as int,
                        j,
                    ));
                }
            }
            if start.active {
                let mut amplitude: u32 = start.amplitude;
                let mut active: bool = true;
                let wave = &waves[n];
                let mut i: usize = 0;
                while i < CHUNK_SIZE
                    invariant
                        i <= CHUNK_SIZE,
                        start.active,
                        start.amplitude <= ENVELOPE_FRAMES,
                        amplitude == envelope(start, i as int),
                        active == !(start.releasing && start.amplitude < i),
                        wave@.len() == CHUNK_SIZE,
                        1 <= voices,
                        mix@.len() == 2 * CHUNK_SIZE,
                        base.len() == 2 * CHUNK_SIZE,
                        forall|j: int|
                            0 <= j < 2 * CHUNK_SIZE ==> -32768 * usize::MAX - 9830
                                <= #[trigger] base[j] <= 32768 * usize::MAX + 9830,
                        forall|j: int|
                            0 <= j < 2 * i ==> #[trigger] mix@[j] == base[j] + note_sample(
                                start,
                                wave@,
                                voices as int,
                                j,
                            ),
                        forall|j: int| 2 * i <= j < 2 * CHUNK_SIZE ==> #[trigger] mix@[j] == base[j],
                    decreases CHUNK_SIZE - i,
                {
                    if !start.releasing && amplitude < ENVELOPE_FRAMES {
                        amplitude = amplitude + 1;
                    } else if start.releasing && amplitude > 0 {
                        amplitude = amplitude - 1;
                    } else if start.releasing {
                        active = false;
                    }
                    let v: i128 = scale(wave[i], amplitude, voices) as i128;
                    assert(base[2 * i as int] == mix@[2 * i as int]);
                    assert(base[2 * i + 1] == mix@[2 * i + 1]);
                    let a: i128 = mix[2 * i] + v;
                    let b: i128 = mix[2 * i + 1] + v;
                    mix.set(2 * i, a);
                    mix.set(2 * i + 1, b);
                    assert((2 * i as int) / 2 == i);
                    assert((2 * i + 1) / 2 == i as int);
                    i += 1;
                }
                let phase: u64 = if start.phase > u64::MAX - 512 {
                    start.phase - (u64::MAX - 511)
                } else {
                    start.phase + 512
                };
                let moved = PlayingNote {
                    frequency: start.frequency,
                    phase,
                    amplitude,
                    releasing: start.releasing,
                    active,
                };
                assert(moved == note_after(start));
                self.notes.set(n, moved);
            }
            proof {
                let wave = waves@[n as int]@;
                assert(before.notes.take(n + 1).drop_last() =~= before.notes.take(n as int));
                assert(before.notes.take(n + 1).last() == start);
                assert forall|j: int| 0 <= j < 2 * CHUNK_SIZE implies #[trigger] mix@[j] == first[j]
                    + notes_sum(before.notes.take(n + 1), waves@, voices as int, j) by {
                    assert(base[j] == first[j] + notes_sum(
                        before.notes.take(n as int),
                        waves@,
                        voices as int,
                        j,
                    ));
                    assert(mix@[j] == base[j] + note_sample(start, wave, voices as int, j));
                }
                assert forall|j: int| 0 <= j < 2 * CHUNK_SIZE implies -9830 <= #[trigger] notes_sum(
                    before.notes.take(n + 1),
                    waves@,
                    voices as int,
                    j,
                ) <= 9830 by {
                    let part = before.notes.take(n + 1);
                    assert forall|i: int| 0 <= i < part.len() implies (#[trigger] part[i]).amplitude
                        <= ENVELOPE_FRAMES by {
                        assert(part[i] == before.notes[i]);
                    }
                    lemma_notes_share_gain(part, waves@, voices as int, j);
                }
            }
            n += 1;
        }
        proof {
            assert(before.notes.take(n as int) =~= before.notes);
            assert(self@.notes =~= Seq::new(
                before.notes.len(),
                |i: int| note_after(before.notes[i]),
            ));
            assert(self@.sounds =~= before.sounds);
        }
    }

    /// Takes the sounds that have reached the end of their samples off the list.
    fn drop_ended_sounds(&mut self)
        ensures
            final(self).samples == old(self).samples,
            final(self).notes == old(self).notes,
            final(self)@.sounds == live_sounds(old(self)@.sounds),
    {
        let ghost before = self@.sounds;
        let mut i: usize = 0;
        proof {
            assert(self@.sounds.skip(0) =~= before);
            assert(self@.sounds.take(0) + live_sounds(before) =~= live_sounds(before));
        }
        while i < self.sounds.len()
            invariant
                i <= self.sounds@.len(),
                self.samples == old(self).samples,
                self.notes == old(self).notes,
                live_sounds(before) == self@.sounds.take(i as int) + live_sounds(
                    self@.sounds.skip(i as int),
                ),
            decreases self.sounds@.len() - i,
        {
            let ghost now = self@.sounds;
            assert(now.skip(i as int)[0] == now[i as int]);
            assert(now[i as int] == self.sounds@[i as int]@);
            if self.sounds[i].cursor < self.sounds[i].data.len() {
                proof {
                    assert(now.skip(i as int).drop_first() =~= now.skip(i + 1));
                    assert(now.take(i + 1) =~= now.take(i as int) + seq![now[i as int]]);
                    assert(now.take(i + 1) + live_sounds(now.skip(i + 1)) =~= now.take(i as int)
                        + live_sounds(now.skip(i as int)));
                }
                i += 1;
            } else {
                self.sounds.remove(i);
                proof {
                    let then = self@.sounds;
                    assert(then =~= now.remove(i as int));
                    assert(then.take(i as int) =~= now.take(i as int));
                    assert(then.skip(i as int) =~= now.skip(i as int).drop_first());
                }
            }
        }
        proof {
            assert(self@.sounds.skip(i as int) =~= Seq::<SoundView>::empty());
            assert(self@.sounds.take(i as int) =~= self@.sounds);
            assert(self@.sounds + Seq::<SoundView>::empty() =~= self@.sounds);
        }
    }

    /// Takes the notes that sound no longer off the list.
    fn drop_silent_notes(&mut self)
        ensures
            final(self).samples == old(self).samples,
            final(self).sounds == old(self).sounds,
            final(self).notes@ == live_notes(old(self).notes@),
    {
        let ghost before = self.notes@;
        let mut i: usize = 0;
        proof {
            assert(self.notes@.skip(0) =~= before);
            assert(self.notes@.take(0) + live_notes(before) =~= live_notes(before));
        }
        while i < self.notes.len()
            invariant
                i <= self.notes@.len(),
                self.samples == old(self).samples,
                self.sounds == old(self).sounds,
                live_notes(before) == self.notes@.take(i as int) + live_notes(
                    self.notes@.skip(i as int),
                ),
            decreases self.notes@.len() - i,
        {
            let ghost now = self.notes@;
            assert(now.skip(i as int)[0] == now[i as int]);
            if self.notes[i].active {
                proof {
                    assert(now.skip(i as int).drop_first() =~= now.skip(i + 1));
                    assert(now.take(i + 1) =~= now.take(i as int) + seq![now[i as int]]);
                    assert(now.take(i + 1) + live_notes(now.skip(i + 1)) =~= now.take(i as int)
                        + live_notes(now.skip(i as int)));
                }
                i += 1;
            } else {
                self.notes.remove(i);
                proof {
                    let then = self.notes@;
                    assert(then.take(i as int) =~= now.take(i as int));
                    assert(then.skip(i as int) =~= now.skip(i as int).drop_first());
                }
            }
        }
        proof {
            assert(self.notes@.skip(i as int) =~= Seq::<PlayingNote>::empty());
            assert(self.notes@.take(i as int) =~= self.notes@);
            assert(self.notes@ + Seq::<PlayingNote>::empty() =~= self.notes@);
        }
    }
}

} // verus!
