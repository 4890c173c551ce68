use rusty_console_game_engine::audio::{
    AudioAction, AudioCommand, AudioMixer, PlayingNote, CHUNK_SIZE, ENVELOPE_FRAMES,
};
use rusty_console_game_engine::oneshot::{frames_for, one_shot};
use rusty_console_game_engine::wav::wav_samples;

fn key(s: &str) -> String {
    s.to_string()
}

fn flat(n: usize, v: i16) -> Vec<Vec<i16>> {
    vec![vec![v; CHUNK_SIZE]; n]
}

#[test]
fn new_mixer_is_silent() {
    let mut m = AudioMixer::new();
    assert_eq!(m.sound_count(), 0);
    assert_eq!(m.note_count(), 0);
    assert!(!m.has_sample(&key("a")));
    let out = m.render_chunk(&vec![]);
    assert_eq!(out, vec![0i16; 2 * CHUNK_SIZE]);
}

#[test]
fn commands_say_what_the_host_is_to_do() {
    let mut m = AudioMixer::new();
    assert_eq!(m.handle(AudioCommand::LoadSample(key("a"), vec![1, 2])), AudioAction::Continue);
    assert_eq!(
        m.handle(AudioCommand::LoadSampleFromBuffer(key("b"), vec![3])),
        AudioAction::Continue
    );
    assert_eq!(m.handle(AudioCommand::PlaySample(key("a"))), AudioAction::Continue);
    assert_eq!(m.handle(AudioCommand::NoteOn(440_000)), AudioAction::AttackBurst(440_000));
    assert_eq!(m.handle(AudioCommand::NoteOff(440_000)), AudioAction::ReleaseBurst(440_000));
    assert_eq!(m.handle(AudioCommand::Quit), AudioAction::Stop);
    assert!(m.has_sample(&key("a")) && m.has_sample(&key("b")) && !m.has_sample(&key("c")));
    assert_eq!(m.sound_count(), 1);
    assert_eq!(m.note_count(), 1);
}

#[test]
fn play_of_an_unknown_sample_is_ignored() {
    let mut m = AudioMixer::new();
    m.handle(AudioCommand::PlaySample(key("nothing")));
    assert_eq!(m.sound_count(), 0);
}

#[test]
fn sound_is_put_on_both_channels_frame_by_frame() {
    let mut m = AudioMixer::new();
    m.handle(AudioCommand::LoadSampleFromBuffer(key("a"), vec![1, 2, 3, 4]));
    m.handle(AudioCommand::PlaySample(key("a")));
    let out = m.render_chunk(&vec![]);
    assert_eq!(out.len(), 2 * CHUNK_SIZE);
    assert_eq!(&out[..10], &[1, 1, 2, 2, 3, 3, 4, 4, 0, 0]);
    assert!(out[8..].iter().all(|v| *v == 0));
    assert_eq!(m.sound_count(), 0);
}

#[test]
fn sound_with_an_odd_number_of_samples_ends_too() {
    let mut m = AudioMixer::new();
    m.handle(AudioCommand::LoadSample(key("s"), vec![10, -20, 30]));
    m.handle(AudioCommand::PlaySample(key("s")));
    let out = m.render_chunk(&vec![]);
    assert_eq!(&out[..8], &[10, 10, -20, -20, 30, 30, 0, 0]);
    assert_eq!(m.sound_count(), 0);
    let next = m.render_chunk(&vec![]);
    assert!(next.iter().all(|v| *v == 0));
}

#[test]
fn sound_of_exactly_one_chunk_ends_with_the_chunk() {
    let data: Vec<i16> = (0..512).map(|i| i as i16 - 200).collect();
    let mut m = AudioMixer::new();
    m.handle(AudioCommand::LoadSample(key("s"), data.clone()));
    m.handle(AudioCommand::PlaySample(key("s")));
    let out = m.render_chunk(&vec![]);
    for i in 0..512 {
        assert_eq!(out[2 * i], data[i]);
        assert_eq!(out[2 * i + 1], data[i]);
    }
    assert_eq!(m.sound_count(), 0);
}

#[test]
fn long_sound_goes_on_over_chunks() {
    let data: Vec<i16> = (0..1200).map(|i| (i % 1000) as i16).collect();
    let mut m = AudioMixer::new();
    m.handle(AudioCommand::LoadSampleFromBuffer(key("s"), data.clone()));
    m.handle(AudioCommand::PlaySample(key("s")));
    let a = m.render_chunk(&vec![]);
    for i in 0..512 {
        assert_eq!((a[2 * i], a[2 * i + 1]), (data[i], data[i]));
    }
    assert_eq!(m.sound_count(), 1);
    let b = m.render_chunk(&vec![]);
    for i in 0..512 {
        assert_eq!((b[2 * i], b[2 * i + 1]), (data[512 + i], data[512 + i]));
    }
    assert_eq!(m.sound_count(), 1);
    let c = m.render_chunk(&vec![]);
    for i in 0..176 {
        assert_eq!((c[2 * i], c[2 * i + 1]), (data[1024 + i], data[1024 + i]));
    }
    assert!(c[352..].iter().all(|v| *v == 0));
    assert_eq!(m.sound_count(), 0);
}

#[test]
fn sounds_are_summed_and_the_sum_is_clamped() {
    let mut m = AudioMixer::new();
    m.handle(AudioCommand::LoadSample(key("hi"), vec![30000, -30000, 100, -100]));
    m.handle(AudioCommand::LoadSample(key("lo"), vec![5, 5, 5, 5]));
    m.handle(AudioCommand::PlaySample(key("hi")));
    m.handle(AudioCommand::PlaySample(key("hi")));
    m.handle(AudioCommand::PlaySample(key("lo")));
    assert_eq!(m.sound_count(), 3);
    let out = m.render_chunk(&vec![]);
    assert_eq!(&out[..10], &[32767, 32767, -32768, -32768, 205, 205, -195, -195, 0, 0]);
    assert_eq!(m.sound_count(), 0);
}

#[test]
fn more_sounds_than_32_bits_can_sum_are_still_clamped() {
    let mut m = AudioMixer::new();
    m.handle(AudioCommand::LoadSample(key("s"), vec![32767, -32768]));
    for _ in 0..70000 {
        m.handle(AudioCommand::PlaySample(key("s")));
    }
    assert_eq!(m.sound_count(), 70000);
    let out = m.render_chunk(&vec![]);
    assert_eq!(&out[..6], &[32767, 32767, -32768, -32768, 0, 0]);
    assert_eq!(m.sound_count(), 0);
}

#[test]
fn playing_sound_is_a_copy_of_the_sample() {
    let mut m = AudioMixer::new();
    m.handle(AudioCommand::LoadSample(key("s"), vec![1, 1]));
    m.handle(AudioCommand::PlaySample(key("s")));
    m.handle(AudioCommand::LoadSample(key("s"), vec![7, 7]));
    m.handle(AudioCommand::PlaySample(key("s")));
    let out = m.render_chunk(&vec![]);
    assert_eq!(&out[..6], &[8, 8, 8, 8, 0, 0]);
}

#[test]
fn note_fades_in_at_three_tenths_of_the_gain() {
    let mut m = AudioMixer::new();
    m.handle(AudioCommand::NoteOn(440_000));
    assert_eq!(
        m.note(0),
        PlayingNote { frequency: 440_000, phase: 0, amplitude: 0, releasing: false, active: true }
    );
    let out = m.render_chunk(&flat(1, 32767));
    for i in 0..CHUNK_SIZE {
        let want = (32767i64 * (i as i64 + 1) * 3 / 22050) as i16;
        assert_eq!(out[2 * i], want);
        assert_eq!(out[2 * i + 1], want);
    }
    assert_eq!(out[0], 4);
    assert_eq!(out[1023], 2282);
    assert_eq!(
        m.note(0),
        PlayingNote { frequency: 440_000, phase: 512, amplitude: 512, releasing: false, active: true }
    );
    for _ in 0..4 {
        m.render_chunk(&flat(1, 32767));
    }
    assert_eq!(m.note(0).amplitude, ENVELOPE_FRAMES);
    assert_eq!(m.note(0).phase, 2560);
    let top = m.render_chunk(&flat(1, -32768));
    assert!(top.iter().all(|v| *v == -9830));
}

#[test]
fn note_on_then_off_is_gone_after_one_chunk() {
    let mut m = AudioMixer::new();
    m.handle(AudioCommand::NoteOn(440_000));
    m.handle(AudioCommand::NoteOff(440_000));
    assert_eq!(m.note_count(), 1);
    assert!(m.note(0).releasing);
    let out = m.render_chunk(&flat(1, 32767));
    assert!(out.iter().all(|v| *v == 0));
    assert_eq!(m.note_count(), 0);
}

#[test]
fn released_note_is_gone_after_the_release_time() {
    let mut m = AudioMixer::new();
    m.handle(AudioCommand::NoteOn(440_000));
    for _ in 0..5 {
        m.render_chunk(&flat(1, 1000));
    }
    assert_eq!(m.note(0).amplitude, 2205);
    m.handle(AudioCommand::NoteOff(440_000));
    let first = m.render_chunk(&flat(1, 22050));
    assert_eq!(first[0], (22050i64 * 2204 * 3 / 22050) as i16);
    assert_eq!(first[1023], (22050i64 * (2205 - 512) * 3 / 22050) as i16);
    for k in 1..5 {
        assert_eq!(m.note_count(), 1);
        assert_eq!(m.note(0).amplitude, 2205 - 512 * k);
        m.render_chunk(&flat(1, 22050));
    }
    assert_eq!(m.note_count(), 0);
}

#[test]
fn note_off_without_a_matching_note_changes_nothing() {
    let mut m = AudioMixer::new();
    assert_eq!(m.handle(AudioCommand::NoteOff(440_000)), AudioAction::ReleaseBurst(440_000));
    assert_eq!(m.note_count(), 0);
    m.handle(AudioCommand::NoteOn(220_000));
    m.handle(AudioCommand::NoteOff(440_000));
    assert_eq!(m.note_count(), 1);
    assert!(!m.note(0).releasing);
    m.render_chunk(&flat(1, 0));
    assert_eq!(m.note_count(), 1);
}

#[test]
fn note_off_releases_every_note_of_the_frequency_and_no_other() {
    let mut m = AudioMixer::new();
    m.handle(AudioCommand::NoteOn(440_000));
    m.handle(AudioCommand::NoteOn(220_000));
    m.handle(AudioCommand::NoteOn(440_000));
    m.handle(AudioCommand::NoteOff(440_000));
    assert!(m.note(0).releasing && !m.note(1).releasing && m.note(2).releasing);
    m.render_chunk(&flat(3, 0));
    assert_eq!(m.note_count(), 1);
    assert_eq!(m.note(0).frequency, 220_000);
}

#[test]
fn many_notes_share_the_gain_and_never_clip() {
    for n in [1usize, 2, 3, 7, 64] {
        let mut m = AudioMixer::new();
        for i in 0..n {
            m.handle(AudioCommand::NoteOn(100_000 + i as u32));
        }
        let mut last = Vec::new();
        for _ in 0..6 {
            last = m.render_chunk(&flat(n, 32767));
        }
        let each = 32767i64 * 2205 * 3 / (22050 * n as i64);
        assert!(last.iter().all(|v| *v as i64 == each * n as i64));
        assert!(last.iter().all(|v| *v <= 9830 && *v >= -9830));
        let low = m.render_chunk(&flat(n, -32768));
        let each_low = -(32768i64 * 2205 * 3 / (22050 * n as i64));
        assert!(low.iter().all(|v| *v as i64 == each_low * n as i64));
        assert!(low.iter().all(|v| *v >= -9830));
    }
}

#[test]
fn notes_and_sounds_are_mixed_together() {
    let mut m = AudioMixer::new();
    m.handle(AudioCommand::LoadSample(key("s"), vec![32000, -32000, 32000, -32000]));
    m.handle(AudioCommand::PlaySample(key("s")));
    m.handle(AudioCommand::NoteOn(440_000));
    let out = m.render_chunk(&flat(1, 32767));
    assert_eq!(&out[..10], &[32004, 32004, -31992, -31992, 32013, 32013, -31983, -31983, 22, 22]);
}

#[test]
fn more_notes_than_65535_share_the_gain_too() {
    let n = 66000usize;
    let mut m = AudioMixer::new();
    for i in 0..n {
        m.handle(AudioCommand::NoteOn(i as u32));
    }
    assert_eq!(m.note_count(), n);
    let out = m.render_chunk(&flat(n, 32767));
    for i in 0..CHUNK_SIZE {
        let each = 32767i64 * (i as i64 + 1) * 3 / (22050 * n as i64);
        assert_eq!(out[2 * i] as i64, each * n as i64);
    }
    assert!(out.iter().all(|v| *v >= -9830 && *v <= 9830));
    assert_eq!(m.note_count(), n);
}

#[test]
fn wav_samples_follow_the_data_mark() {
    let mut bytes = b"RIFF\x00\x00\x00\x00WAVEfmt \x10\x00\x00\x00".to_vec();
    bytes.extend_from_slice(&[0u8; 16]);
    bytes.extend_from_slice(b"data\x06\x00\x00\x00");
    bytes.extend_from_slice(&[0x01, 0x00, 0xFF, 0xFF, 0x00, 0x80, 0xFF, 0x7F, 0x34]);
    assert_eq!(wav_samples(&bytes), Some(vec![1, -1, -32768, 32767]));
}

#[test]
fn wav_without_a_whole_mark_gives_nothing() {
    assert_eq!(wav_samples(b""), None);
    assert_eq!(wav_samples(b"dat"), None);
    assert_eq!(wav_samples(b"RIFFxxxxWAVEdat"), None);
    assert_eq!(wav_samples(b"xxdata\x00\x00\x00"), None);
    assert_eq!(wav_samples(b"xxdata\x00\x00\x00\x00"), Some(vec![]));
    assert_eq!(wav_samples(b"data1234data5678\x02\x01"), Some(vec![0x6164, 0x6174, 0x3635, 0x3837, 0x0102]));
}

#[test]
fn frames_of_a_duration() {
    assert_eq!(frames_for(0), 0);
    assert_eq!(frames_for(1), 44);
    assert_eq!(frames_for(10), 441);
    assert_eq!(frames_for(1000), 44100);
    assert_eq!(frames_for(u32::MAX), 4294967295u64 * 441 / 10);
}

#[test]
fn one_shot_fades_in_and_out() {
    let mono = vec![1000i16; 100];
    let shaped = one_shot(&mono, 2);
    assert_eq!(shaped.len(), 100);
    let ramp = 9i64;
    for n in 0..100usize {
        let want = if (n as i64) < ramp {
            1000 * n as i64 / ramp
        } else if n as i64 >= 100 - ramp {
            1000 * (100 - n as i64) / ramp
        } else {
            1000
        };
        assert_eq!(shaped[n] as i64, want);
    }
    assert_eq!(shaped[0], 0);
    assert_eq!(shaped[1], 111);
    assert_eq!(shaped[99], 111);
    assert_eq!(shaped[91], 1000);
}

#[test]
fn one_shot_ramp_is_at_most_half_the_frames() {
    let mono = vec![-900i16, -900, -900, -900, -900];
    assert_eq!(one_shot(&mono, 1000), vec![0, -450, -900, -900, -450]);
    assert_eq!(one_shot(&vec![], 50), Vec::<i16>::new());
    assert_eq!(one_shot(&vec![5], 50), vec![5]);
    assert_eq!(one_shot(&vec![7, 8, 9], 0), vec![7, 8, 9]);
}

#[test]
fn one_shot_is_played_on_both_channels() {
    let mut m = AudioMixer::new();
    let shaped = one_shot(&vec![-900i16, -900, -900, -900, -900], 1000);
    m.handle(AudioCommand::LoadSampleFromBuffer(key("__temp_notes_0"), shaped));
    m.handle(AudioCommand::PlaySample(key("__temp_notes_0")));
    let out = m.render_chunk(&vec![]);
    assert_eq!(&out[..12], &[0, 0, -450, -450, -900, -900, -900, -900, -450, -450, 0, 0]);
    assert_eq!(m.sound_count(), 0);
}
