//! Turns the size of a change into a musical note.

use crate::path::{extension_chars, file_name_chars, path_extension_of};
use crate::text::{
    chars_of, lines_of, owned, parse_i32, parse_i32_spec, split_lines, split_words, string_of, views,
    words_of,
};
use vstd::prelude::*;

verus! {

/// Pitch that a change of equal additions and deletions is played at (middle C).
pub const BASE_NOTE: u8 = 60;

/// Loudness of every note.
pub const VELOCITY: u8 = 100;

/// One note: pitch, length in milliseconds, loudness and MIDI channel.
#[derive(Debug, Clone, Copy, PartialEq, Eq, Structural)]
pub struct CommitNote {
    pub note: u8,
    pub duration_ms: u64,
    pub velocity: u8,
    pub channel: u8,
}

/// Settings from which notes are derived.
#[derive(Debug, Clone, Copy, PartialEq, Eq, Structural)]
pub struct MusicConfig {
    pub base_note: u8,
    pub velocity: u8,
    pub tempo: u32,
}

impl Default for MusicConfig {
    fn default() -> (config: Self)
        ensures
            config.base_note == BASE_NOTE,
            config.velocity == VELOCITY,
            config.tempo == 120,
    {
        MusicConfig { base_note: BASE_NOTE, velocity: VELOCITY, tempo: 120 }
    }
}

/// The least `k` with `n <= 2^k`, for `n >= 1`; `0` below that.
pub open spec fn ceil_log2(n: int) -> int
    decreases n,
{
    if n <= 1 {
        0
    } else {
        1 + ceil_log2((n + 1) / 2)
    }
}

/// `2^k` for `k >= 0`, `1` below that.
pub open spec fn pow2(k: int) -> int
    decreases k,
{
    if k <= 0 {
        1
    } else {
        2 * pow2(k - 1)
    }
}

/// `ceil_log2(n)` is the least exponent whose power of two reaches `n`.
pub proof fn lemma_ceil_log2_bounds(n: int)
    requires
        n >= 1,
    ensures
        ceil_log2(n) >= 0,
        n <= pow2(ceil_log2(n)),
        ceil_log2(n) > 0 ==> pow2(ceil_log2(n) - 1) < n,
    decreases n,
{
    if n > 1 {
        lemma_ceil_log2_bounds((n + 1) / 2);
    }
}

/// The MIDI channel that stands for a file type.
pub open spec fn channel_for(file_type: Seq<char>) -> u8 {
    if file_type == seq!['r', 's'] {
        0
    } else if file_type == seq!['j', 's'] || file_type == seq!['t', 's'] {
        1
    } else if file_type == seq!['p', 'y'] {
        2
    } else {
        3
    }
}

/// Semitones above the base note for a count of changed lines: the rounded-up
/// binary logarithm of a positive count, the lowest step for zero, and no
/// step for a negative count.
pub open spec fn pitch_steps(lines: int) -> int {
    if lines < 0 {
        0
    } else if lines == 0 {
        -128
    } else {
        ceil_log2(lines)
    }
}

/// Signed distance of a note from the base note: upwards when additions
/// outweigh deletions, downwards otherwise.
pub open spec fn note_offset(additions: int, deletions: int) -> int {
    if additions > deletions {
        pitch_steps(additions)
    } else if deletions == 0 {
        127
    } else {
        -pitch_steps(deletions)
    }
}

/// A value held to the MIDI range `0..=127`.
pub open spec fn clamp_midi(value: int) -> int {
    if value < 0 {
        0
    } else if value > 127 {
        127
    } else {
        value
    }
}

/// Whole milliseconds in `500 * log2(total)`, held to `200..=2000`.
pub open spec fn note_duration_ms(total: int) -> int {
    if total <= 2 {
        if total == 2 { 500 } else { 200 }
    } else if total >= 16 {
        2000
    } else if total == 3 {
        792
    } else if total == 4 {
        1000
    } else if total == 5 {
        1160
    } else if total == 6 {
        1292
    } else if total == 7 {
        1403
    } else if total == 8 {
        1500
    } else if total == 9 {
        1584
    } else if total == 10 {
        1660
    } else if total == 11 {
        1729
    } else if total == 12 {
        1792
    } else if total == 13 {
        1850
    } else if total == 14 {
        1903
    } else {
        1953
    }
}

fn ceil_log2_exec(n: i32) -> (k: i32)
    requires
        n >= 1,
    ensures
        k == ceil_log2(n as int),
        0 <= k <= 31,
{
    let mut k: i32 = 0;
    let mut rest: i32 = n;
    proof {
        assert(pow2(31) == 0x8000_0000) by {
            reveal_with_fuel(pow2, 32);
        }
    }
    while rest > 1
        invariant
            1 <= rest <= n,
            0 <= k,
            k + ceil_log2(rest as int) == ceil_log2(n as int),
            rest as int <= pow2(31 - k),
            k <= 31,
        decreases rest,
    {
        proof {
            assert(k < 31) by {
                if k == 31 {
                    assert(pow2(0) == 1);
                }
            }
            assert(pow2(31 - k) == 2 * pow2(31 - k - 1));
        }
        rest = (rest - 1) / 2 + 1;
        k = k + 1;
    }
    k
}

fn pitch_steps_exec(lines: i32) -> (steps: i32)
    ensures
        steps == pitch_steps(lines as int),
        -128 <= steps <= 31,
{
    if lines < 0 {
        0
    } else if lines == 0 {
        -128
    } else {
        ceil_log2_exec(lines)
    }
}

fn channel_exec(file_type: &str) -> (channel: u8)
    ensures
        channel == channel_for(file_type@),
{
    let n = file_type.unicode_len();
    if n != 2 {
        return 3;
    }
    let a = file_type.get_char(0);
    let b = file_type.get_char(1);
    proof {
        assert(file_type@ =~= seq![a, b]);
    }
    if a == 'r' && b == 's' {
        0
    } else if (a == 'j' || a == 't') && b == 's' {
        1
    } else if a == 'p' && b == 'y' {
        2
    } else {
        3
    }
}

fn duration_exec(total: i64) -> (ms: u64)
    ensures
        ms == note_duration_ms(total as int),
{
    if total <= 1 {
        200
    } else if total >= 16 {
        2000
    } else if total == 2 {
        500
    } else if total == 3 {
        792
    } else if total == 4 {
        1000
    } else if total == 5 {
        1160
    } else if total == 6 {
        1292
    } else if total == 7 {
        1403
    } else if total == 8 {
        1500
    } else if total == 9 {
        1584
    } else if total == 10 {
        1660
    } else if total == 11 {
        1729
    } else if total == 12 {
        1792
    } else if total == 13 {
        1850
    } else if total == 14 {
        1903
    } else {
        1953
    }
}

/// The note for a change of the given size to a file of the given type.
pub open spec fn note_for(additions: int, deletions: int, file_type: Seq<char>, config: MusicConfig) -> CommitNote {
    CommitNote {
        note: clamp_midi(config.base_note + note_offset(additions, deletions)) as u8,
        duration_ms: note_duration_ms(additions + deletions) as u64,
        velocity: config.velocity,
        channel: channel_for(file_type),
    }
}

/// The note for one changed file: the channel follows the file type, the
/// pitch moves away from the base note with the logarithm of the larger side
/// of the change, and the length grows with the logarithm of its size.
pub fn commit_to_note(additions: i32, deletions: i32, file_type: &str, config: &MusicConfig) -> (note:
    CommitNote)
    ensures
        note == note_for(additions as int, deletions as int, file_type@, *config),
        note.channel == channel_for(file_type@),
        note.note == clamp_midi(config.base_note + note_offset(additions as int, deletions as int)),
        note.duration_ms == note_duration_ms(additions + deletions),
        note.velocity == config.velocity,
{
    let channel = channel_exec(file_type);
    let offset: i32 = if additions > deletions {
        pitch_steps_exec(additions)
    } else if deletions == 0 {
        127
    } else {
        -pitch_steps_exec(deletions)
    };
    let raw: i32 = config.base_note as i32 + offset;
    let pitch: u8 = if raw < 0 {
        0
    } else if raw > 127 {
        127
    } else {
        raw as u8
    };
    let total: i64 = additions as i64 + deletions as i64;
    CommitNote { note: pitch, duration_ms: duration_exec(total), velocity: config.velocity, channel }
}

/// What one event of a track does.
#[derive(Debug, Clone, Copy, PartialEq, Eq, Structural)]
pub enum MidiMessage {
    /// Sets the tempo, in microseconds per beat.
    Tempo { microseconds_per_beat: u32 },
    /// Chooses the instrument of a channel.
    ProgramChange { channel: u8, program: u8 },
    /// Starts a note.
    NoteOn { channel: u8, key: u8, velocity: u8 },
    /// Ends a note.
    NoteOff { channel: u8, key: u8, velocity: u8 },
    /// Ends the track.
    EndOfTrack,
}

/// One event of a track: what happens, and how many ticks after the event
/// before it.
#[derive(Debug, Clone, Copy, PartialEq, Eq, Structural)]
pub struct MidiEvent {
    pub delta: u32,
    pub message: MidiMessage,
}

/// A piece of music in one track.
#[derive(Debug)]
pub struct MidiTrack {
    pub ticks_per_beat: u16,
    pub events: Vec<MidiEvent>,
}

/// Ticks in a beat.
pub const TICKS_PER_BEAT: u16 = 480;

/// Ticks of silence before each note.
pub const PAUSE_TICKS: u32 = 60;

/// Loudness at which every note of a track is struck.
pub const STRIKE_VELOCITY: u8 = 100;

/// Microseconds per beat at a hundred beats in a minute.
pub const MICROSECONDS_PER_BEAT: u32 = 600000;

/// How many ticks a note of the given length sounds: 480 for a second, but
/// no fewer than 240 and no more than 960.
pub open spec fn note_ticks(duration_ms: int) -> int {
    let ticks = duration_ms * 480 / 1000;
    if ticks < 240 {
        240
    } else if ticks > 960 {
        960
    } else {
        ticks
    }
}

/// What a track begins with: the tempo, and the instrument of each of the
/// four channels.
pub open spec fn opening() -> Seq<MidiEvent> {
    seq![
        MidiEvent {
            delta: 0,
            message: MidiMessage::Tempo { microseconds_per_beat: MICROSECONDS_PER_BEAT },
        },
        MidiEvent { delta: 0, message: MidiMessage::ProgramChange { channel: 0, program: 0 } },
        MidiEvent { delta: 0, message: MidiMessage::ProgramChange { channel: 1, program: 25 } },
        MidiEvent { delta: 0, message: MidiMessage::ProgramChange { channel: 2, program: 40 } },
        MidiEvent { delta: 0, message: MidiMessage::ProgramChange { channel: 3, program: 19 } },
    ]
}

/// The two events of one note: it starts after a short pause and ends when
/// its length has passed.
pub open spec fn note_events(note: CommitNote) -> Seq<MidiEvent> {
    seq![
        MidiEvent {
            delta: PAUSE_TICKS,
            message: MidiMessage::NoteOn {
                channel: note.channel,
                key: note.note,
                velocity: STRIKE_VELOCITY,
            },
        },
        MidiEvent {
            delta: note_ticks(note.duration_ms as int) as u32,
            message: MidiMessage::NoteOff { channel: note.channel, key: note.note, velocity: 0 },
        },
    ]
}

/// The events of the given notes, one note after the other.
pub open spec fn sounded(notes: Seq<CommitNote>) -> Seq<MidiEvent>
    decreases notes.len(),
{
    if notes.len() == 0 {
        Seq::empty()
    } else {
        sounded(notes.drop_last()) + note_events(notes.last())
    }
}

/// What a track ends with: a beat of silence, then the end.
pub open spec fn closing() -> Seq<MidiEvent> {
    seq![MidiEvent { delta: 480, message: MidiMessage::EndOfTrack }]
}

/// The events of the track that plays the given notes.
pub open spec fn track_events(notes: Seq<CommitNote>) -> Seq<MidiEvent> {
    opening() + sounded(notes) + closing()
}

/// Computes how many ticks a note of the given length sounds.
fn ticks_exec(duration_ms: u64) -> (ticks: u32)
    ensures
        ticks == note_ticks(duration_ms as int),
{
    if duration_ms >= 2000 {
        960
    } else {
        let ticks = duration_ms * 480 / 1000;
        if ticks < 240 {
            240
        } else {
            ticks as u32
        }
    }
}

/// The track that plays the given notes in order, each on its channel.
pub fn generate_midi(notes: &Vec<CommitNote>, config: &MusicConfig) -> (track: MidiTrack)
    ensures
        track.ticks_per_beat == TICKS_PER_BEAT,
        track.events@ == track_events(notes@),
        track.events@.len() == 2 * notes@.len() + 6,
{
    let mut events: Vec<MidiEvent> = Vec::new();
    events.push(
        MidiEvent {
            delta: 0,
            message: MidiMessage::Tempo { microseconds_per_beat: MICROSECONDS_PER_BEAT },
        },
    );
    events.push(MidiEvent { delta: 0, message: MidiMessage::ProgramChange { channel: 0, program: 0 } });
    events.push(
        MidiEvent { delta: 0, message: MidiMessage::ProgramChange { channel: 1, program: 25 } },
    );
    events.push(
        MidiEvent { delta: 0, message: MidiMessage::ProgramChange { channel: 2, program: 40 } },
    );
    events.push(
        MidiEvent { delta: 0, message: MidiMessage::ProgramChange { channel: 3, program: 19 } },
    );
    let mut i: usize = 0;
    proof {
        assert(notes@.take(0) =~= Seq::empty());
        assert(events@ =~= opening() + sounded(notes@.take(0)));
    }
    while i < notes.len()
        invariant
            i <= notes.len(),
            events@ == opening() + sounded(notes@.take(i as int)),
            events@.len() == 5 + 2 * i,
        decreases notes.len() - i,
    {
        let note = &notes[i];
        let ghost before = events@;
        events.push(
            MidiEvent {
                delta: PAUSE_TICKS,
                message: MidiMessage::NoteOn {
                    channel: note.channel,
                    key: note.note,
                    velocity: STRIKE_VELOCITY,
                },
            },
        );
        events.push(
            MidiEvent {
                delta: ticks_exec(note.duration_ms),
                message: MidiMessage::NoteOff { channel: note.channel, key: note.note, velocity: 0 },
            },
        );
        proof {
            assert(notes@.take(i + 1).drop_last() =~= notes@.take(i as int));
            assert(notes@.take(i + 1).last() == *note);
            assert(events@ =~= before + note_events(*note));
            assert(events@ =~= opening() + sounded(notes@.take(i + 1)));
        }
        i = i + 1;
    }
    proof {
        assert(notes@.take(notes.len() as int) =~= notes@);
    }
    let ghost body = events@;
    events.push(MidiEvent { delta: 480, message: MidiMessage::EndOfTrack });
    proof {
        assert(events@ =~= body + closing());
    }
    MidiTrack { ticks_per_beat: TICKS_PER_BEAT, events }
}

/// The file type of a path for which no extension is found.
pub open spec fn unknown_type() -> Seq<char> {
    "unknown"@
}

/// The note of one line of a change list: the line needs three words or
/// more, of which the first two are numbers of 32 bits; the third is the
/// path, whose extension is the file type.
pub open spec fn note_of_line(line: Seq<char>, config: MusicConfig) -> Option<CommitNote> {
    let words = words_of(line);
    if words.len() >= 3 {
        match (parse_i32_spec(words[0]), parse_i32_spec(words[1])) {
            (Some(additions), Some(deletions)) => Some(
                note_for(
                    additions as int,
                    deletions as int,
                    match path_extension_of(words[2]) {
                        Some(ext) => ext,
                        None => unknown_type(),
                    },
                    config,
                ),
            ),
            _ => None,
        }
    } else {
        None
    }
}

/// The notes of the given lines, in order.
pub open spec fn notes_of(lines: Seq<Seq<char>>, config: MusicConfig) -> Seq<CommitNote>
    decreases lines.len(),
{
    if lines.len() == 0 {
        Seq::empty()
    } else {
        match note_of_line(lines.last(), config) {
            Some(note) => notes_of(lines.drop_last(), config).push(note),
            None => notes_of(lines.drop_last(), config),
        }
    }
}

/// The notes of a change list: one for each line that names a changed file
/// with its numbers of lines added and deleted.
pub fn notes_from_numstat(text: &str, config: &MusicConfig) -> (notes: Vec<CommitNote>)
    ensures
        notes@ == notes_of(lines_of(text@), *config),
{
    let chars = chars_of(text);
    let lines = split_lines(&chars);
    let mut notes: Vec<CommitNote> = Vec::new();
    let mut i: usize = 0;
    let ghost all = views(lines@);
    proof {
        assert(all.take(0) =~= Seq::empty());
    }
    while i < lines.len()
        invariant
            i <= lines.len(),
            all == views(lines@),
            notes@ == notes_of(all.take(i as int), *config),
        decreases lines.len() - i,
    {
        proof {
            assert(all.take(i + 1).drop_last() =~= all.take(i as int));
            assert(all.take(i + 1).last() == lines@[i as int]@);
        }
        let words = split_words(&lines[i]);
        if words.len() >= 3 {
            proof {
                assert(views(words@)[0] == words@[0]@);
                assert(views(words@)[1] == words@[1]@);
                assert(views(words@)[2] == words@[2]@);
            }
            match (parse_i32(&words[0]), parse_i32(&words[1])) {
                (Some(additions), Some(deletions)) => {
                    let file_type: String = match file_name_chars(&words[2]) {
                        Some(name) => match extension_chars(&name) {
                            Some(ext) => string_of(&ext),
                            None => owned("unknown"),
                        },
                        None => owned("unknown"),
                    };
                    notes.push(commit_to_note(additions, deletions, file_type.as_str(), config));
                },
                _ => {},
            }
        }
        i = i + 1;
    }
    proof {
        assert(all.take(lines.len() as int) =~= all);
    }
    notes
}

} // verus!
