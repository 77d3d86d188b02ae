use pitch_detection::midi;
use pitch_detection::midi::{distinct_sorted, identify_chord, midi_note_name};

#[test]
fn midi_note_names() {
    assert_eq!(midi_note_name(60), "C4");
    assert_eq!(midi_note_name(69), "A4");
    assert_eq!(midi_note_name(61), "C#4");
    assert_eq!(midi_note_name(21), "A0");
}

#[test]
fn identifies_major_and_minor_triads() {
    assert_eq!(identify_chord(&[60, 64, 67]).as_deref(), Some("Cmaj")); // C E G
    assert_eq!(identify_chord(&[57, 60, 64]).as_deref(), Some("Amin")); // A C E
    assert_eq!(identify_chord(&[62, 66, 69]).as_deref(), Some("Dmaj")); // D F# A
}

#[test]
fn identifies_inversions() {
    // first inversion C major: E G C
    assert_eq!(identify_chord(&[64, 67, 72]).as_deref(), Some("Cmaj"));
    // second inversion A minor: E A C
    assert_eq!(identify_chord(&[64, 69, 72]).as_deref(), Some("Amin"));
}

#[test]
fn identifies_seventh_chords() {
    assert_eq!(identify_chord(&[60, 64, 67, 70]).as_deref(), Some("C7"));
    assert_eq!(identify_chord(&[60, 64, 67, 71]).as_deref(), Some("Cmaj7"));
    assert_eq!(identify_chord(&[57, 60, 64, 67]).as_deref(), Some("Amin7"));
}

#[test]
fn too_few_notes_is_not_a_chord() {
    assert_eq!(identify_chord(&[]), None);
    assert_eq!(identify_chord(&[60]), None);
    assert_eq!(identify_chord(&[60, 67]), None); // dyad
    assert_eq!(identify_chord(&[60, 72]), None); // octave, one pitch class
}

#[test]
fn note_names_at_the_ends_of_the_range() {
    assert_eq!(midi_note_name(0), "C-1");
    assert_eq!(midi_note_name(11), "B-1");
    assert_eq!(midi_note_name(12), "C0");
    assert_eq!(midi_note_name(127), "G9");
    assert_eq!(midi_note_name(120), "C9");
    assert_eq!(midi_note_name(132), "C10");
    assert_eq!(midi_note_name(255), "D#20");
}

#[test]
fn note_names_are_joined_by_semicolons() {
    assert_eq!(midi::midi_note_names(&[]), "");
    assert_eq!(midi::midi_note_names(&[57]), "A3");
    assert_eq!(midi::midi_note_names(&[60, 64, 67]), "C4;E4;G4");
    assert_eq!(midi::midi_note_names(&[1, 130]), "C#-1;A#9");
}

#[test]
fn distinct_sorted_sorts_and_drops_repeats() {
    assert_eq!(distinct_sorted(&[]), Vec::<u8>::new());
    assert_eq!(distinct_sorted(&[67, 60, 64, 60, 67]), vec![60, 64, 67]);
    assert_eq!(distinct_sorted(&[255, 0, 255, 0]), vec![0, 255]);
    assert_eq!(distinct_sorted(&[1, 2, 3]), vec![1, 2, 3]);
    // sorting what is already sorted and repeat-free changes nothing
    let once = distinct_sorted(&[9, 3, 9, 5]);
    assert_eq!(distinct_sorted(&once), once);
}

#[test]
fn each_chord_shape_is_named() {
    assert_eq!(identify_chord(&[60, 63, 66]).as_deref(), Some("Cdim"));
    assert_eq!(identify_chord(&[60, 64, 68]).as_deref(), Some("Caug"));
    assert_eq!(identify_chord(&[60, 62, 67]).as_deref(), Some("Csus2"));
    assert_eq!(identify_chord(&[60, 65, 67]).as_deref(), Some("Csus4"));
    assert_eq!(identify_chord(&[60, 63, 67, 70]).as_deref(), Some("Cmin7"));
    assert_eq!(identify_chord(&[60, 63, 66, 69]).as_deref(), Some("Cdim7"));
    assert_eq!(identify_chord(&[66, 70, 73]).as_deref(), Some("F#maj"));
    assert_eq!(identify_chord(&[71, 74, 78]).as_deref(), Some("Bmin"));
}

#[test]
fn bass_root_comes_first_then_lowest_other_root() {
    // C E G A: no shape over the bass C; over A it is a minor seventh
    assert_eq!(identify_chord(&[60, 64, 67, 69]).as_deref(), Some("Amin7"));
    // augmented triads are symmetric: the bass names them
    assert_eq!(identify_chord(&[64, 68, 72]).as_deref(), Some("Eaug"));
    assert_eq!(identify_chord(&[68, 72, 76]).as_deref(), Some("G#aug"));
    // diminished sevenths too
    assert_eq!(identify_chord(&[63, 66, 69, 72]).as_deref(), Some("D#dim7"));
    // three pitch classes forming no shape at all
    assert_eq!(identify_chord(&[60, 61, 62]), None);
    // five pitch classes
    assert_eq!(identify_chord(&[60, 62, 64, 65, 67]), None);
}

#[test]
fn chord_ignores_order_duplicates_and_octaves() {
    let base = identify_chord(&[57, 60, 64]);
    assert_eq!(base.as_deref(), Some("Amin"));
    assert_eq!(identify_chord(&[64, 57, 60]), base);
    assert_eq!(identify_chord(&[57, 60, 64, 64, 76, 60]), base);
    assert_eq!(identify_chord(&[69, 72, 76]), base);
    assert_eq!(identify_chord(&[9, 12, 16]), base);
}

#[test]
fn chord_follows_transposition_of_its_bass_shape() {
    let voicing = [60u8, 64, 67, 70];
    assert_eq!(identify_chord(&voicing).as_deref(), Some("C7"));
    let names = ["C7", "C#7", "D7", "D#7", "E7", "F7", "F#7", "G7", "G#7", "A7", "A#7", "B7", "C7"];
    for k in 0..=12u8 {
        let moved: Vec<u8> = voicing.iter().map(|n| n + k).collect();
        assert_eq!(identify_chord(&moved).as_deref(), Some(names[k as usize]));
    }
}
