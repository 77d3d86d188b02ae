//! MIDI note naming and chord identification.

use vstd::prelude::*;
use vstd::string::*;

verus! {

/// Name of a pitch class, counted in semitones above C.
pub open spec fn pitch_class_name(pc: int) -> Seq<char> {
    if pc == 0 {
        seq!['C']
    } else if pc == 1 {
        seq!['C', '#']
    } else if pc == 2 {
        seq!['D']
    } else if pc == 3 {
        seq!['D', '#']
    } else if pc == 4 {
        seq!['E']
    } else if pc == 5 {
        seq!['F']
    } else if pc == 6 {
        seq!['F', '#']
    } else if pc == 7 {
        seq!['G']
    } else if pc == 8 {
        seq!['G', '#']
    } else if pc == 9 {
        seq!['A']
    } else if pc == 10 {
        seq!['A', '#']
    } else {
        seq!['B']
    }
}

/// The character of a decimal digit.
pub open spec fn digit_char(d: int) -> char {
    if d == 0 {
        '0'
    } else if d == 1 {
        '1'
    } else if d == 2 {
        '2'
    } else if d == 3 {
        '3'
    } else if d == 4 {
        '4'
    } else if d == 5 {
        '5'
    } else if d == 6 {
        '6'
    } else if d == 7 {
        '7'
    } else if d == 8 {
        '8'
    } else {
        '9'
    }
}

/// Decimal digits of a natural number, most significant first.
pub open spec fn decimal_digits(n: nat) -> Seq<char>
    decreases n,
{
    if n < 10 {
        seq![digit_char(n as int)]
    } else {
        decimal_digits(n / 10).push(digit_char((n % 10) as int))
    }
}

/// Decimal text of an integer, with a leading `-` when it is negative.
pub open spec fn decimal(i: int) -> Seq<char> {
    if i < 0 {
        seq!['-'] + decimal_digits((-i) as nat)
    } else {
        decimal_digits(i as nat)
    }
}

/// Scientific pitch notation of a MIDI note: pitch class name, then the
/// octave, where MIDI note 60 is C4.
pub open spec fn note_name(midi: int) -> Seq<char> {
    pitch_class_name(midi % 12) + decimal(midi / 12 - 1)
}

fn pitch_class_str(pc: u8) -> (s: &'static str)
    requires
        pc < 12,
    ensures
        s@ == pitch_class_name(pc as int),
{
    match pc {
        0 => { proof { reveal_strlit("C"); } "C" },
        1 => { proof { reveal_strlit("C#"); } "C#" },
        2 => { proof { reveal_strlit("D"); } "D" },
        3 => { proof { reveal_strlit("D#"); } "D#" },
        4 => { proof { reveal_strlit("E"); } "E" },
        5 => { proof { reveal_strlit("F"); } "F" },
        6 => { proof { reveal_strlit("F#"); } "F#" },
        7 => { proof { reveal_strlit("G"); } "G" },
        8 => { proof { reveal_strlit("G#"); } "G#" },
        9 => { proof { reveal_strlit("A"); } "A" },
        10 => { proof { reveal_strlit("A#"); } "A#" },
        _ => { proof { reveal_strlit("B"); } "B" },
    }
}

fn push_digit(s: &mut String, d: u8)
    requires
        d < 10,
    ensures
        final(s)@ == old(s)@.push(digit_char(d as int)),
{
    let text = match d {
        0 => { proof { reveal_strlit("0"); } "0" },
        1 => { proof { reveal_strlit("1"); } "1" },
        2 => { proof { reveal_strlit("2"); } "2" },
        3 => { proof { reveal_strlit("3"); } "3" },
        4 => { proof { reveal_strlit("4"); } "4" },
        5 => { proof { reveal_strlit("5"); } "5" },
        6 => { proof { reveal_strlit("6"); } "6" },
        7 => { proof { reveal_strlit("7"); } "7" },
        8 => { proof { reveal_strlit("8"); } "8" },
        _ => { proof { reveal_strlit("9"); } "9" },
    };
    assert(text@ == seq![digit_char(d as int)]);
    s.append(text);
}

/// Name of a MIDI note in scientific pitch notation ("C4" for 60, "C#4"
/// for 61, "A0" for 21); notes below 12 lie in octave -1.
pub fn midi_note_name(midi: u8) -> (name: String)
    ensures
        name@ == note_name(midi as int),
{
    let mut name = String::from_str(pitch_class_str(midi % 12));
    let octave_index: u8 = midi / 12;
    proof {
        reveal_with_fuel(decimal_digits, 2);
    }
    if octave_index == 0 {
        proof { reveal_strlit("-1"); }
        name.append("-1");
        assert(name@ == note_name(midi as int));
    } else {
        let octave: u8 = octave_index - 1;
        if octave >= 10 {
            push_digit(&mut name, octave / 10);
        }
        push_digit(&mut name, octave % 10);
        assert(name@ == note_name(midi as int));
    }
    name
}


/// A sequence of bytes in strictly ascending order (so without repeats).
pub open spec fn strictly_ascending(s: Seq<u8>) -> bool {
    forall|i: int, j: int| 0 <= i < j < s.len() ==> s[i] < s[j]
}

/// The distinct values of `values`, in ascending order: what sorting the
/// values and then dropping repeats gives.
pub fn distinct_sorted(values: &[u8]) -> (sorted: Vec<u8>)
    ensures
        strictly_ascending(sorted@),
        forall|x: u8| sorted@.contains(x) <==> values@.contains(x),
{
    let mut present: Vec<bool> = Vec::new();
    while present.len() < 256
        invariant
            present.len() <= 256,
            forall|x: int| 0 <= x < present.len() ==> !present[x],
        decreases 256 - present.len(),
    {
        present.push(false);
    }
    let mut k: usize = 0;
    while k < values.len()
        invariant
            k <= values.len(),
            present.len() == 256,
            forall|x: int|
                0 <= x < 256 ==> (present[x] <==> exists|j: int| 0 <= j < k && values[j] == x),
        decreases values.len() - k,
    {
        let v = values[k];
        present.set(v as usize, true);
        proof {
            assert forall|x: int| 0 <= x < 256 implies (present[x] <==> exists|j: int|
                0 <= j < k + 1 && values[j] == x) by {
                if x == v {
                    assert(values[k as int] == x);
                }
            }
        }
        k = k + 1;
    }
    let mut sorted: Vec<u8> = Vec::new();
    let mut v: usize = 0;
    while v < 256
        invariant
            v <= 256,
            present.len() == 256,
            k == values.len(),
            forall|x: int|
                0 <= x < 256 ==> (present[x] <==> exists|j: int| 0 <= j < k && values[j] == x),
            strictly_ascending(sorted@),
            forall|j: int| 0 <= j < sorted.len() ==> sorted[j] < v,
            forall|x: u8| sorted@.contains(x) <==> (x < v && present[x as int]),
        decreases 256 - v,
    {
        if present[v] {
            let ghost before = sorted@;
            sorted.push(v as u8);
            proof {
                assert forall|x: u8| sorted@.contains(x) <==> (x < v + 1 && present[x as int]) by {
                    if x == v {
                        assert(sorted@[sorted.len() - 1] == x);
                    }
                    if sorted@.contains(x) && x != v {
                        let j = choose|j: int| 0 <= j < sorted.len() && sorted@[j] == x;
                        assert(before[j] == x);
                    }
                    if x < v && present[x as int] {
                        let j = choose|j: int| 0 <= j < before.len() && before[j] == x;
                        assert(sorted@[j] == x);
                    }
                }
            }
        }
        v = v + 1;
    }
    proof {
        assert forall|x: u8| sorted@.contains(x) <==> values@.contains(x) by {
            if values@.contains(x) {
                let j = choose|j: int| 0 <= j < values.len() && values@[j] == x;
                assert(values[j] == x as int);
            }
        }
    }
    sorted
}


/// Number of chord shapes that chords are matched against.
pub const CHORD_TEMPLATE_COUNT: usize = 10;

/// Chord shapes, as the set of intervals (in semitones) above the root,
/// in the order in which they are tried: maj, min, dim, aug, sus2, sus4,
/// maj7, 7, min7, dim7.
pub open spec fn chord_template(t: int) -> Set<int> {
    if t == 0 {
        set![0int, 4, 7]
    } else if t == 1 {
        set![0int, 3, 7]
    } else if t == 2 {
        set![0int, 3, 6]
    } else if t == 3 {
        set![0int, 4, 8]
    } else if t == 4 {
        set![0int, 2, 7]
    } else if t == 5 {
        set![0int, 5, 7]
    } else if t == 6 {
        set![0int, 4, 7, 11]
    } else if t == 7 {
        set![0int, 4, 7, 10]
    } else if t == 8 {
        set![0int, 3, 7, 10]
    } else {
        set![0int, 3, 6, 9]
    }
}

/// The suffix that names each chord shape after its root.
pub open spec fn chord_suffix(t: int) -> Seq<char> {
    if t == 0 {
        seq!['m', 'a', 'j']
    } else if t == 1 {
        seq!['m', 'i', 'n']
    } else if t == 2 {
        seq!['d', 'i', 'm']
    } else if t == 3 {
        seq!['a', 'u', 'g']
    } else if t == 4 {
        seq!['s', 'u', 's', '2']
    } else if t == 5 {
        seq!['s', 'u', 's', '4']
    } else if t == 6 {
        seq!['m', 'a', 'j', '7']
    } else if t == 7 {
        seq!['7']
    } else if t == 8 {
        seq!['m', 'i', 'n', '7']
    } else {
        seq!['d', 'i', 'm', '7']
    }
}

/// The pitch classes (0 = C, ..., 11 = B) that sound among `notes`.
pub open spec fn pitch_classes(notes: Seq<u8>) -> Set<int> {
    Set::new(|pc: int| exists|k: int| 0 <= k < notes.len() && notes[k] % 12 == pc)
}

/// At least three distinct pitch classes sound.
pub open spec fn has_three_pitch_classes(pcs: Set<int>) -> bool {
    exists|a: int, b: int, c: int| a < b < c && pcs.contains(a) && pcs.contains(b) && pcs.contains(c)
}

/// The lowest of a non-empty sequence of notes.
pub open spec fn lowest_note(notes: Seq<u8>) -> int
    decreases notes.len(),
{
    if notes.len() <= 1 {
        notes[0] as int
    } else {
        let rest = lowest_note(notes.drop_last());
        if notes.last() < rest {
            notes.last() as int
        } else {
            rest
        }
    }
}

/// Pitch class of the bass (lowest) note.
pub open spec fn bass_pitch_class(notes: Seq<u8>) -> int {
    lowest_note(notes) % 12
}

/// The intervals (0..12 semitones) above `root` at which a pitch class of
/// `pcs` sounds.
pub open spec fn intervals_above(pcs: Set<int>, root: int) -> Set<int> {
    Set::new(|i: int| 0 <= i < 12 && pcs.contains((i + root) % 12))
}

/// The first chord shape, from index `t` on, whose intervals are exactly
/// those of `pcs` above `root`.
pub open spec fn template_from(pcs: Set<int>, root: int, t: int) -> Option<int>
    decreases 10 - t,
{
    if t < 0 || t >= 10 {
        None
    } else if intervals_above(pcs, root) == chord_template(t) {
        Some(t)
    } else {
        template_from(pcs, root, t + 1)
    }
}

/// The chord shape that `pcs` forms over `root`, if any.
pub open spec fn chord_shape(pcs: Set<int>, root: int) -> Option<int> {
    template_from(pcs, root, 0)
}

/// The lowest pitch class, from `r` on, other than the bass, over which
/// `pcs` forms a chord shape.
pub open spec fn other_root_from(pcs: Set<int>, bass: int, r: int) -> Option<int>
    decreases 12 - r,
{
    if r < 0 || r >= 12 {
        None
    } else if pcs.contains(r) && r != bass && chord_shape(pcs, r) is Some {
        Some(r)
    } else {
        other_root_from(pcs, bass, r + 1)
    }
}

/// Root of the chord that `notes` form: none with fewer than three pitch
/// classes; else the bass pitch class when the notes form a shape over it,
/// so that inversions are named by their root; else the lowest other
/// pitch class over which they form a shape.
pub open spec fn chord_root(notes: Seq<u8>) -> Option<int> {
    let pcs = pitch_classes(notes);
    let bass = bass_pitch_class(notes);
    if !has_three_pitch_classes(pcs) {
        None
    } else if chord_shape(pcs, bass) is Some {
        Some(bass)
    } else {
        other_root_from(pcs, bass, 0)
    }
}

/// Name of the chord that `notes` form: its root's name, then its shape's
/// suffix ("Cmaj", "Amin7").
pub open spec fn chord_name(notes: Seq<u8>) -> Option<Seq<char>> {
    match chord_root(notes) {
        Some(r) => Some(
            pitch_class_name(r) + chord_suffix(chord_shape(pitch_classes(notes), r).unwrap()),
        ),
        None => None,
    }
}

/// The text an optional string holds.
pub open spec fn optional_text(s: Option<String>) -> Option<Seq<char>> {
    match s {
        Some(s) => Some(s@),
        None => None,
    }
}

/// The set of values in a sequence of pitch classes.
pub open spec fn value_set(v: Seq<u8>) -> Set<int> {
    Set::new(|x: int| exists|j: int| 0 <= j < v.len() && v[j] == x)
}

fn chord_suffix_str(t: usize) -> (s: &'static str)
    requires
        t < CHORD_TEMPLATE_COUNT,
    ensures
        s@ == chord_suffix(t as int),
{
    match t {
        0 => { proof { reveal_strlit("maj"); } "maj" },
        1 => { proof { reveal_strlit("min"); } "min" },
        2 => { proof { reveal_strlit("dim"); } "dim" },
        3 => { proof { reveal_strlit("aug"); } "aug" },
        4 => { proof { reveal_strlit("sus2"); } "sus2" },
        5 => { proof { reveal_strlit("sus4"); } "sus4" },
        6 => { proof { reveal_strlit("maj7"); } "maj7" },
        7 => { proof { reveal_strlit("7"); } "7" },
        8 => { proof { reveal_strlit("min7"); } "min7" },
        _ => { proof { reveal_strlit("dim7"); } "dim7" },
    }
}

fn template_has(t: usize, i: u8) -> (b: bool)
    requires
        t < CHORD_TEMPLATE_COUNT,
    ensures
        b == chord_template(t as int).contains(i as int),
{
    match t {
        0 => i == 0 || i == 4 || i == 7,
        1 => i == 0 || i == 3 || i == 7,
        2 => i == 0 || i == 3 || i == 6,
        3 => i == 0 || i == 4 || i == 8,
        4 => i == 0 || i == 2 || i == 7,
        5 => i == 0 || i == 5 || i == 7,
        6 => i == 0 || i == 4 || i == 7 || i == 11,
        7 => i == 0 || i == 4 || i == 7 || i == 10,
        8 => i == 0 || i == 3 || i == 7 || i == 10,
        _ => i == 0 || i == 3 || i == 6 || i == 9,
    }
}

fn contains_value(v: &Vec<u8>, x: u8) -> (found: bool)
    ensures
        found == value_set(v@).contains(x as int),
{
    let mut j: usize = 0;
    while j < v.len()
        invariant
            j <= v.len(),
            forall|k: int| 0 <= k < j ==> v@[k] != x,
        decreases v.len() - j,
    {
        if v[j] == x {
            return true;
        }
        j = j + 1;
    }
    false
}

/// Whether the pitch classes `pcs` form chord shape `t` over `root`.
fn forms_shape(pcs: &Vec<u8>, root: u8, t: usize) -> (b: bool)
    requires
        root < 12,
        t < CHORD_TEMPLATE_COUNT,
    ensures
        b == (intervals_above(value_set(pcs@), root as int) == chord_template(t as int)),
{
    let ghost above = intervals_above(value_set(pcs@), root as int);
    let mut i: u8 = 0;
    while i < 12
        invariant
            i <= 12,
            root < 12,
            t < CHORD_TEMPLATE_COUNT,
            above == intervals_above(value_set(pcs@), root as int),
            forall|k: int| 0 <= k < i ==> (above.contains(k) == chord_template(t as int).contains(k)),
        decreases 12 - i,
    {
        let sounding = contains_value(pcs, (i + root) % 12);
        if sounding != template_has(t, i) {
            assert(above.contains(i as int) != chord_template(t as int).contains(i as int));
            return false;
        }
        i = i + 1;
    }
    assert(above =~= chord_template(t as int));
    true
}

/// Name of the chord that `notes` form, when they form one.
///
/// The notes are reduced to their distinct pitch classes; with fewer than
/// three there is no chord. The pitch class of the lowest note is tried
/// first as the root, so that inversions are named by their root, then the
/// other pitch classes in ascending order. A root names the chord when the
/// intervals of all pitch classes above it are exactly one of the chord
/// shapes (maj, min, dim, aug, sus2, sus4, maj7, 7, min7, dim7, tried in
/// that order).
pub fn identify_chord(notes: &[u8]) -> (chord: Option<String>)
    ensures
        optional_text(chord) == chord_name(notes@),
{
    if notes.len() == 0 {
        assert(!has_three_pitch_classes(pitch_classes(notes@)));
        return None;
    }
    let mut reduced: Vec<u8> = Vec::new();
    let mut k: usize = 0;
    let mut lowest: u8 = notes[0];
    while k < notes.len()
        invariant
            0 < notes.len(),
            k <= notes.len(),
            reduced.len() == k,
            forall|j: int| 0 <= j < k ==> reduced@[j] == notes@[j] % 12,
            k > 0 ==> lowest == lowest_note(notes@.take(k as int)),
            k == 0 ==> lowest == notes@[0],
        decreases notes.len() - k,
    {
        reduced.push(notes[k] % 12);
        if k == 0 {
            assert(notes@.take(1).len() == 1);
        } else {
            assert(notes@.take(k + 1).drop_last() =~= notes@.take(k as int));
            if notes[k] < lowest {
                lowest = notes[k];
            }
        }
        k = k + 1;
    }
    assert(notes@.take(notes.len() as int) =~= notes@);
    let ghost pcs_set = pitch_classes(notes@);
    let pcs = distinct_sorted(reduced.as_slice());
    assert(value_set(pcs@) =~= pcs_set) by {
        assert forall|x: int| value_set(pcs@).contains(x) implies pcs_set.contains(x) by {
            let j = choose|j: int| 0 <= j < pcs@.len() && pcs@[j] == x;
            assert(pcs@.contains(pcs@[j]));
            assert(reduced@.contains(pcs@[j]));
            let m = choose|m: int| 0 <= m < reduced@.len() && reduced@[m] == pcs@[j];
            assert(notes@[m] % 12 == x);
        }
        assert forall|x: int| pcs_set.contains(x) implies value_set(pcs@).contains(x) by {
            let m = choose|m: int| 0 <= m < notes@.len() && notes@[m] % 12 == x;
            assert(reduced@[m] == x);
            assert(reduced@.contains(reduced@[m]));
            assert(pcs@.contains(reduced@[m]));
        }
    }
    if pcs.len() < 3 {
        proof {
            if has_three_pitch_classes(pcs_set) {
                let (a, b, c) = choose|a: int, b: int, c: int|
                    a < b < c && pcs_set.contains(a) && pcs_set.contains(b) && pcs_set.contains(c);
                let ia = choose|j: int| 0 <= j < pcs@.len() && pcs@[j] == a;
                let ib = choose|j: int| 0 <= j < pcs@.len() && pcs@[j] == b;
                let ic = choose|j: int| 0 <= j < pcs@.len() && pcs@[j] == c;
                assert(ia < ib < ic);
            }
        }
        return None;
    }
    assert(has_three_pitch_classes(pcs_set)) by {
        assert(pcs_set.contains(pcs@[0] as int));
        assert(pcs_set.contains(pcs@[1] as int));
        assert(pcs_set.contains(pcs@[2] as int));
    }
    let bass: u8 = lowest % 12;
    assert(bass == bass_pitch_class(notes@));

    // the bass pitch class is tried first
    let mut t: usize = 0;
    while t < CHORD_TEMPLATE_COUNT
        invariant
            t <= CHORD_TEMPLATE_COUNT,
            bass < 12,
            value_set(pcs@) == pcs_set,
            pcs_set == pitch_classes(notes@),
            has_three_pitch_classes(pcs_set),
            bass == bass_pitch_class(notes@),
            template_from(pcs_set, bass as int, 0) == template_from(pcs_set, bass as int, t as int),
        decreases CHORD_TEMPLATE_COUNT - t,
    {
        if forms_shape(&pcs, bass, t) {
            assert(template_from(pcs_set, bass as int, t as int) == Some(t as int));
            assert(chord_root(notes@) == Some(bass as int));
            let mut name = String::from_str(pitch_class_str(bass));
            name.append(chord_suffix_str(t));
            return Some(name);
        }
        t = t + 1;
    }
    assert(chord_shape(pcs_set, bass as int) is None);

    // then the other pitch classes, lowest first
    let mut root: u8 = 0;
    while root < 12
        invariant
            root <= 12,
            bass < 12,
            value_set(pcs@) == pcs_set,
            pcs_set == pitch_classes(notes@),
            bass == bass_pitch_class(notes@),
            chord_root(notes@) == other_root_from(pcs_set, bass as int, root as int),
        decreases 12 - root,
    {
        if root != bass && contains_value(&pcs, root) {
            let mut t: usize = 0;
            while t < CHORD_TEMPLATE_COUNT
                invariant
                    t <= CHORD_TEMPLATE_COUNT,
                    root < 12,
                    value_set(pcs@) == pcs_set,
                    pcs_set == pitch_classes(notes@),
                    bass == bass_pitch_class(notes@),
                    root != bass,
                    pcs_set.contains(root as int),
                    chord_root(notes@) == other_root_from(pcs_set, bass as int, root as int),
                    template_from(pcs_set, root as int, 0) == template_from(pcs_set, root as int, t as int),
                decreases CHORD_TEMPLATE_COUNT - t,
            {
                if forms_shape(&pcs, root, t) {
                    assert(template_from(pcs_set, root as int, t as int) == Some(t as int));
                    assert(other_root_from(pcs_set, bass as int, root as int) == Some(root as int));
                    let mut name = String::from_str(pitch_class_str(root));
                    name.append(chord_suffix_str(t));
                    return Some(name);
                }
                t = t + 1;
            }
        }
        root = root + 1;
    }
    None
}


/// Note names of `notes`, separated by `;`.
pub open spec fn joined_note_names(notes: Seq<u8>) -> Seq<char>
    decreases notes.len(),
{
    if notes.len() == 0 {
        Seq::empty()
    } else if notes.len() == 1 {
        note_name(notes[0] as int)
    } else {
        joined_note_names(notes.drop_last()) + seq![';'] + note_name(notes.last() as int)
    }
}

/// Names of `notes` in scientific pitch notation, separated by `;` (a
/// separator that keeps a CSV column intact): "C4;E4;G4".
pub fn midi_note_names(notes: &[u8]) -> (names: String)
    ensures
        names@ == joined_note_names(notes@),
{
    let mut names = String::new();
    let mut k: usize = 0;
    while k < notes.len()
        invariant
            k <= notes.len(),
            names@ == joined_note_names(notes@.take(k as int)),
        decreases notes.len() - k,
    {
        assert(notes@.take(k + 1).drop_last() == notes@.take(k as int));
        if k > 0 {
            proof { reveal_strlit(";"); }
            names.append(";");
        }
        let name = midi_note_name(notes[k]);
        names.append(name.as_str());
        k = k + 1;
    }
    assert(notes@.take(notes.len() as int) == notes@);
    names
}

/// Two strictly ascending sequences with the same values are the same
/// sequence: sorting and dropping repeats depends on nothing but the set of
/// values, so `distinct_sorted` gives one answer for any order or
/// repetition of its input, and gives back a sorted repeat-free input
/// unchanged.
pub proof fn lemma_distinct_sorted_is_unique(a: Seq<u8>, b: Seq<u8>)
    requires
        strictly_ascending(a),
        strictly_ascending(b),
        forall|x: u8| a.contains(x) <==> b.contains(x),
    ensures
        a == b,
    decreases a.len() + b.len(),
{
    if a.len() == 0 || b.len() == 0 {
        if a.len() > 0 {
            assert(a.contains(a[0]));
        }
        if b.len() > 0 {
            assert(b.contains(b[0]));
        }
    } else {
        // the smallest values agree
        assert(a.contains(a[0]) && b.contains(b[0]));
        let ja = choose|j: int| 0 <= j < a.len() && a[j] == b[0];
        let jb = choose|j: int| 0 <= j < b.len() && b[j] == a[0];
        assert(a[0] == b[0]) by {
            if a[0] < b[0] {
                assert(b[jb] < b[0]);
            } else if a[0] > b[0] {
                assert(a[ja] < a[0]);
            }
        }
        let ra = a.drop_first();
        let rb = b.drop_first();
        assert forall|x: u8| ra.contains(x) <==> rb.contains(x) by {
            if ra.contains(x) {
                let j = choose|j: int| 0 <= j < ra.len() && ra[j] == x;
                assert(a[j + 1] == x && a.contains(x));
                let k = choose|k: int| 0 <= k < b.len() && b[k] == x;
                assert(k != 0);
                assert(rb[k - 1] == x);
            }
            if rb.contains(x) {
                let j = choose|j: int| 0 <= j < rb.len() && rb[j] == x;
                assert(b[j + 1] == x && b.contains(x));
                let k = choose|k: int| 0 <= k < a.len() && a[k] == x;
                assert(k != 0);
                assert(ra[k - 1] == x);
            }
        }
        lemma_distinct_sorted_is_unique(ra, rb);
        assert(a == seq![a[0]] + ra);
        assert(b == seq![b[0]] + rb);
    }
}

/// The bass is the lowest of the notes: one of them, and no higher than
/// any of them.
pub proof fn lemma_lowest_note_is_lowest(notes: Seq<u8>)
    requires
        notes.len() > 0,
    ensures
        notes.contains(lowest_note(notes) as u8),
        0 <= lowest_note(notes) < 256,
        forall|k: int| 0 <= k < notes.len() ==> lowest_note(notes) <= notes[k],
    decreases notes.len(),
{
    if notes.len() > 1 {
        let rest = notes.drop_last();
        lemma_lowest_note_is_lowest(rest);
        let j = choose|j: int| 0 <= j < rest.len() && rest[j] == lowest_note(rest) as u8;
        assert(notes[j] == rest[j]);
        assert forall|k: int| 0 <= k < notes.len() implies lowest_note(notes) <= notes[k] by {
            if k < notes.len() - 1 {
                assert(notes[k] == rest[k]);
            }
        }
    } else {
        assert(notes.contains(notes[0]));
    }
}

/// The chord that notes form depends on nothing but the set of pitch
/// classes that sound and the pitch class of the bass.
pub proof fn lemma_chord_depends_on_pitch_classes_and_bass(a: Seq<u8>, b: Seq<u8>)
    requires
        pitch_classes(a) == pitch_classes(b),
        bass_pitch_class(a) == bass_pitch_class(b),
    ensures
        chord_name(a) == chord_name(b),
{
}

/// The order in which the notes are given does not change the chord.
pub proof fn lemma_chord_ignores_note_order(a: Seq<u8>, b: Seq<u8>)
    requires
        a.to_multiset() == b.to_multiset(),
    ensures
        chord_name(a) == chord_name(b),
{
    a.to_multiset_ensures();
    b.to_multiset_ensures();
    assert forall|x: u8| a.contains(x) <==> b.contains(x) by {
        assert(a.to_multiset().count(x) == b.to_multiset().count(x));
        assert(a.contains(x) <==> a.to_multiset().count(x) > 0);
        assert(b.contains(x) <==> b.to_multiset().count(x) > 0);
    }
    assert(pitch_classes(a) =~= pitch_classes(b)) by {
        assert forall|pc: int| pitch_classes(a).contains(pc) implies pitch_classes(b).contains(pc) by {
            let k = choose|k: int| 0 <= k < a.len() && a[k] % 12 == pc;
            assert(a.contains(a[k]));
            let m = choose|m: int| 0 <= m < b.len() && b[m] == a[k];
            assert(b[m] % 12 == pc);
        }
        assert forall|pc: int| pitch_classes(b).contains(pc) implies pitch_classes(a).contains(pc) by {
            let k = choose|k: int| 0 <= k < b.len() && b[k] % 12 == pc;
            assert(b.contains(b[k]));
            let m = choose|m: int| 0 <= m < a.len() && a[m] == b[k];
            assert(a[m] % 12 == pc);
        }
    }
    if a.len() > 0 && b.len() > 0 {
        lemma_lowest_note_is_lowest(a);
        lemma_lowest_note_is_lowest(b);
        let la = lowest_note(a) as u8;
        let lb = lowest_note(b) as u8;
        assert(b.contains(la) && a.contains(lb));
        let ja = choose|j: int| 0 <= j < a.len() && a[j] == lb;
        let jb = choose|j: int| 0 <= j < b.len() && b[j] == la;
        assert(lowest_note(a) == lowest_note(b));
    } else {
        assert(a.len() == 0 ==> a.to_multiset().len() == 0);
        assert(b.len() == 0 ==> b.to_multiset().len() == 0);
        assert(a.len() == b.len());
        assert(a =~= b);
    }
}

/// Moving every note of a voicing by the same number of octaves does not
/// change the chord.
pub proof fn lemma_chord_ignores_octave_shift(notes: Seq<u8>, shifted: Seq<u8>, octaves: nat)
    requires
        shifted.len() == notes.len(),
        forall|k: int| 0 <= k < notes.len() ==> shifted[k] == notes[k] + 12 * octaves,
    ensures
        chord_name(shifted) == chord_name(notes),
{
    assert forall|k: int| 0 <= k < notes.len() implies #[trigger] shifted[k] % 12 == notes[k] % 12 by {
        assert((notes[k] + 12 * octaves) % 12 == notes[k] % 12) by (nonlinear_arith);
    }
    assert(pitch_classes(shifted) =~= pitch_classes(notes)) by {
        assert forall|pc: int| pitch_classes(notes).contains(pc) implies pitch_classes(shifted).contains(pc) by {
            let k = choose|k: int| 0 <= k < notes.len() && notes[k] % 12 == pc;
            assert(shifted[k] % 12 == pc);
        }
    }
    if notes.len() > 0 {
        lemma_lowest_note_is_lowest(notes);
        lemma_lowest_note_is_lowest(shifted);
        let j = choose|j: int| 0 <= j < notes.len() && notes[j] == lowest_note(notes) as u8;
        let m = choose|m: int| 0 <= m < shifted.len() && shifted[m] == lowest_note(shifted) as u8;
        assert(shifted[j] == notes[j] + 12 * octaves);
        assert(lowest_note(shifted) == lowest_note(notes) + 12 * octaves);
        assert((lowest_note(notes) + 12 * octaves) % 12 == lowest_note(notes) % 12) by (nonlinear_arith);
    }
}

proof fn lemma_template_from_matches(pcs: Set<int>, root: int, t: int)
    requires
        template_from(pcs, root, t) is Some,
    ensures
        0 <= template_from(pcs, root, t).unwrap() < CHORD_TEMPLATE_COUNT,
        intervals_above(pcs, root) == chord_template(template_from(pcs, root, t).unwrap()),
    decreases 10 - t,
{
    if 0 <= t < 10 && intervals_above(pcs, root) != chord_template(t) {
        lemma_template_from_matches(pcs, root, t + 1);
    }
}

proof fn lemma_other_root_sounds(pcs: Set<int>, bass: int, r: int)
    requires
        other_root_from(pcs, bass, r) is Some,
    ensures
        pcs.contains(other_root_from(pcs, bass, r).unwrap()),
        chord_shape(pcs, other_root_from(pcs, bass, r).unwrap()) is Some,
        other_root_from(pcs, bass, r).unwrap() != bass,
    decreases 12 - r,
{
    if 0 <= r < 12 && !(pcs.contains(r) && r != bass && chord_shape(pcs, r) is Some) {
        lemma_other_root_sounds(pcs, bass, r + 1);
    }
}

/// A named chord is rooted on a pitch class that sounds, and the intervals
/// of the sounding pitch classes above that root are exactly those of the
/// named shape.
pub proof fn lemma_named_chord_fits_its_shape(notes: Seq<u8>)
    requires
        chord_root(notes) is Some,
    ensures
        ({
            let root = chord_root(notes).unwrap();
            let pcs = pitch_classes(notes);
            let t = chord_shape(pcs, root).unwrap();
            &&& pcs.contains(root)
            &&& 0 <= t < CHORD_TEMPLATE_COUNT
            &&& intervals_above(pcs, root) == chord_template(t)
            &&& chord_name(notes) == Some(pitch_class_name(root) + chord_suffix(t))
        }),
{
    let pcs = pitch_classes(notes);
    let bass = bass_pitch_class(notes);
    if chord_shape(pcs, bass) is Some {
        lemma_template_from_matches(pcs, bass, 0);
        assert(notes.len() > 0) by {
            let (a, b, c) = choose|a: int, b: int, c: int|
                a < b < c && pcs.contains(a) && pcs.contains(b) && pcs.contains(c);
            assert(pcs.contains(a));
        }
        lemma_lowest_note_is_lowest(notes);
        let j = choose|j: int| 0 <= j < notes.len() && notes[j] == lowest_note(notes) as u8;
        assert(notes[j] % 12 == bass);
    } else {
        lemma_other_root_sounds(pcs, bass, 0);
        lemma_template_from_matches(pcs, chord_root(notes).unwrap(), 0);
    }
}


proof fn lemma_shift_keeps_pitch_class(a: int, c: int, k: int)
    ensures
        ((a + k) % 12 == (c + k) % 12) == (a % 12 == c % 12),
{
    assert(((a + k) % 12 == (c + k) % 12) == (a % 12 == c % 12)) by (nonlinear_arith);
}

proof fn lemma_shape_follows_intervals(p1: Set<int>, r1: int, p2: Set<int>, r2: int, t: int)
    requires
        intervals_above(p1, r1) == intervals_above(p2, r2),
    ensures
        template_from(p1, r1, t) == template_from(p2, r2, t),
    decreases 10 - t,
{
    if 0 <= t < 10 {
        lemma_shape_follows_intervals(p1, r1, p2, r2, t + 1);
    }
}

proof fn lemma_three_distinct(pcs: Set<int>, x: int, y: int, z: int)
    requires
        x != y && y != z && x != z,
        pcs.contains(x) && pcs.contains(y) && pcs.contains(z),
    ensures
        has_three_pitch_classes(pcs),
{
    if x < y && y < z {
        assert(x < y < z);
    } else if x < z && z < y {
        assert(x < z < y);
    } else if y < x && x < z {
        assert(y < x < z);
    } else if y < z && z < x {
        assert(y < z < x);
    } else if z < x && x < y {
        assert(z < x < y);
    } else {
        assert(z < y < x);
    }
}

proof fn lemma_transposed_intervals(notes: Seq<u8>, moved: Seq<u8>, k: nat, root: int)
    requires
        moved.len() == notes.len(),
        forall|i: int| 0 <= i < notes.len() ==> moved[i] == notes[i] + k,
        0 <= root < 12,
    ensures
        intervals_above(pitch_classes(moved), (root + k) % 12) == intervals_above(pitch_classes(notes), root),
{
    let pcs = pitch_classes(notes);
    let pcs2 = pitch_classes(moved);
    let root2 = (root + k) % 12;
    assert forall|i: int|
        #[trigger] intervals_above(pcs2, root2).contains(i) == intervals_above(pcs, root).contains(i) by {
        if 0 <= i < 12 {
            assert((i + root2) % 12 == (i + root + k) % 12) by (nonlinear_arith)
                requires root2 == (root + k) % 12;
            if pcs.contains((i + root) % 12) {
                let j = choose|j: int| 0 <= j < notes.len() && notes[j] % 12 == (i + root) % 12;
                lemma_shift_keeps_pitch_class(notes[j] as int, i + root, k as int);
                assert(moved[j] % 12 == (i + root2) % 12);
            }
            if pcs2.contains((i + root2) % 12) {
                let j = choose|j: int| 0 <= j < moved.len() && moved[j] % 12 == (i + root2) % 12;
                lemma_shift_keeps_pitch_class(notes[j] as int, i + root, k as int);
                assert(notes[j] % 12 == ((i + root) % 12) % 12);
            }
        }
    }
    assert(intervals_above(pcs2, root2) =~= intervals_above(pcs, root));
}

proof fn lemma_transposed_bass(notes: Seq<u8>, moved: Seq<u8>, k: nat)
    requires
        notes.len() > 0,
        moved.len() == notes.len(),
        forall|i: int| 0 <= i < notes.len() ==> moved[i] == notes[i] + k,
    ensures
        bass_pitch_class(moved) == (bass_pitch_class(notes) + k) % 12,
{
    lemma_lowest_note_is_lowest(notes);
    lemma_lowest_note_is_lowest(moved);
    let jn = choose|j: int| 0 <= j < notes.len() && notes[j] == lowest_note(notes) as u8;
    let jm = choose|j: int| 0 <= j < moved.len() && moved[j] == lowest_note(moved) as u8;
    assert(moved[jn] == notes[jn] + k);
    assert(lowest_note(moved) == lowest_note(notes) + k);
    assert((lowest_note(notes) + k) % 12 == (lowest_note(notes) % 12 + k) % 12) by (nonlinear_arith);
}

proof fn lemma_shape_sounds_three(pcs: Set<int>, root: int, t: int)
    requires
        0 <= root < 12,
        0 <= t < CHORD_TEMPLATE_COUNT,
        intervals_above(pcs, root) == chord_template(t),
    ensures
        has_three_pitch_classes(pcs),
{
    let (x, y, z) = if t == 0 || t == 6 || t == 7 {
        (0int, 4int, 7int)
    } else if t == 1 || t == 8 {
        (0int, 3int, 7int)
    } else if t == 2 || t == 9 {
        (0int, 3int, 6int)
    } else if t == 3 {
        (0int, 4int, 8int)
    } else if t == 4 {
        (0int, 2int, 7int)
    } else {
        (0int, 5int, 7int)
    };
    assert(chord_template(t).contains(x) && chord_template(t).contains(y) && chord_template(t).contains(z));
    assert(intervals_above(pcs, root).contains(x));
    assert(intervals_above(pcs, root).contains(y));
    assert(intervals_above(pcs, root).contains(z));
    lemma_three_distinct(pcs, (x + root) % 12, (y + root) % 12, (z + root) % 12);
}

/// When the bass forms a chord shape, moving every note up by the same
/// number of semitones moves the root by that many semitones (modulo the
/// octave) and keeps the shape: the chord keeps its quality and follows
/// the transposition.
pub proof fn lemma_chord_follows_transposition(notes: Seq<u8>, moved: Seq<u8>, k: nat)
    requires
        moved.len() == notes.len(),
        forall|i: int| 0 <= i < notes.len() ==> moved[i] == notes[i] + k,
        chord_root(notes) == Some(bass_pitch_class(notes)),
    ensures
        chord_root(moved) == Some((bass_pitch_class(notes) + k) % 12),
        chord_shape(pitch_classes(moved), (bass_pitch_class(notes) + k) % 12) == chord_shape(
            pitch_classes(notes),
            bass_pitch_class(notes),
        ),
{
    let pcs = pitch_classes(notes);
    let pcs2 = pitch_classes(moved);
    let bass = bass_pitch_class(notes);
    let bass2 = (bass + k) % 12;
    lemma_named_chord_fits_its_shape(notes);
    if chord_shape(pcs, bass) is None {
        lemma_other_root_sounds(pcs, bass, 0);
    }
    assert(chord_shape(pcs, bass) is Some);
    assert(notes.len() > 0) by {
        let (a, b, c) = choose|a: int, b: int, c: int|
            a < b < c && pcs.contains(a) && pcs.contains(b) && pcs.contains(c);
        assert(pcs.contains(a));
    }
    lemma_lowest_note_is_lowest(notes);
    lemma_transposed_intervals(notes, moved, k, bass);
    lemma_shape_follows_intervals(pcs2, bass2, pcs, bass, 0);
    lemma_transposed_bass(notes, moved, k);
    lemma_shape_sounds_three(pcs2, bass2, chord_shape(pcs, bass).unwrap());
}


/// The number that a text of decimal digits stands for.
pub open spec fn digits_value(s: Seq<char>) -> int
    decreases s.len(),
{
    if s.len() == 0 {
        0
    } else {
        digits_value(s.drop_last()) * 10 + (s.last() as int - '0' as int)
    }
}

/// The integer that a decimal text stands for, with an optional leading
/// `-`.
pub open spec fn signed_value(s: Seq<char>) -> int {
    if s.len() > 0 && s[0] == '-' {
        -digits_value(s.drop_first())
    } else {
        digits_value(s)
    }
}

proof fn lemma_digit_char_is_ascii(d: int)
    requires
        0 <= d < 10,
    ensures
        digit_char(d) as int == '0' as int + d,
{
}

/// The decimal text of a natural number is made of ASCII digits only
/// (none of them a leading zero unless the number is 0) and reads back as
/// that number.
pub proof fn lemma_decimal_digits_read_back(n: nat)
    ensures
        digits_value(decimal_digits(n)) == n,
        decimal_digits(n).len() > 0,
        forall|i: int|
            0 <= i < decimal_digits(n).len() ==> '0' <= #[trigger] decimal_digits(n)[i] <= '9',
        n > 0 ==> decimal_digits(n)[0] != '0',
    decreases n,
{
    if n < 10 {
        lemma_digit_char_is_ascii(n as int);
        let d = decimal_digits(n);
        assert(d == seq![digit_char(n as int)]);
        assert(d.drop_last() == Seq::<char>::empty());
        assert(digits_value(d.drop_last()) == 0);
        assert(d.last() as int == '0' as int + n);
        assert(digits_value(d) == digits_value(d.drop_last()) * 10 + (d.last() as int - '0' as int));
    } else {
        lemma_decimal_digits_read_back(n / 10);
        lemma_digit_char_is_ascii((n % 10) as int);
        let d = decimal_digits(n);
        assert(d.drop_last() == decimal_digits(n / 10));
        assert(d.last() == digit_char((n % 10) as int));
        assert(digits_value(d) == digits_value(d.drop_last()) * 10 + (d.last() as int - '0' as int));
        assert((n / 10) * 10 + n % 10 == n);
        assert forall|i: int| 0 <= i < d.len() implies '0' <= #[trigger] d[i] <= '9' by {
            if i < d.len() - 1 {
                assert(d[i] == decimal_digits(n / 10)[i]);
            }
        }
        assert(d[0] == decimal_digits(n / 10)[0]);
    }
}

/// The decimal text of any integer reads back as that integer; it is a
/// `-` (for negative numbers only) followed by ASCII digits.
pub proof fn lemma_decimal_reads_back(i: int)
    ensures
        signed_value(decimal(i)) == i,
        forall|k: int|
            0 <= k < decimal(i).len() ==> ('0' <= #[trigger] decimal(i)[k] <= '9' || (k == 0 && i < 0
                && decimal(i)[k] == '-')),
{
    if i < 0 {
        lemma_decimal_digits_read_back((-i) as nat);
        let t = decimal(i);
        assert(t.drop_first() == decimal_digits((-i) as nat));
        assert forall|k: int| 0 <= k < t.len() implies ('0' <= #[trigger] t[k] <= '9' || (k == 0 && i < 0
            && t[k] == '-')) by {
            if k > 0 {
                assert(t[k] == decimal_digits((-i) as nat)[k - 1]);
            }
        }
    } else {
        lemma_decimal_digits_read_back(i as nat);
        if i > 0 {
            assert(decimal(i)[0] != '-');
        } else {
            assert(decimal(i) == seq![digit_char(0)]);
        }
    }
}

/// The name of a MIDI note is its pitch class name followed by a decimal
/// text that reads back as the octave `midi / 12 - 1` (so 60 is C4, 96 is
/// C7, 0 is C-1).
pub proof fn lemma_note_name_reads_back(midi: u8)
    ensures
        ({
            let pc = pitch_class_name(midi as int % 12);
            let name = note_name(midi as int);
            &&& name.take(pc.len() as int) == pc
            &&& signed_value(name.skip(pc.len() as int)) == midi / 12 - 1
        }),
{
    let pc = pitch_class_name(midi as int % 12);
    lemma_decimal_reads_back(midi / 12 - 1);
    assert(note_name(midi as int).take(pc.len() as int) == pc);
    assert(note_name(midi as int).skip(pc.len() as int) == decimal(midi / 12 - 1));
}

/// The pieces of a text between its `;` separators, in order.
pub open spec fn split_at_semicolons(s: Seq<char>) -> Seq<Seq<char>>
    decreases s.len(),
{
    if s.len() == 0 {
        seq![Seq::empty()]
    } else {
        let pieces = split_at_semicolons(s.drop_last());
        if s.last() == ';' {
            pieces.push(Seq::empty())
        } else {
            pieces.update(pieces.len() - 1, pieces.last().push(s.last()))
        }
    }
}

proof fn lemma_split_has_a_piece(s: Seq<char>)
    ensures
        split_at_semicolons(s).len() >= 1,
    decreases s.len(),
{
    if s.len() > 0 {
        lemma_split_has_a_piece(s.drop_last());
    }
}

proof fn lemma_split_extends_last_piece(a: Seq<char>, b: Seq<char>)
    requires
        forall|i: int| 0 <= i < b.len() ==> b[i] != ';',
    ensures
        split_at_semicolons(a + b) == split_at_semicolons(a).update(
            split_at_semicolons(a).len() - 1,
            split_at_semicolons(a).last() + b,
        ),
    decreases b.len(),
{
    lemma_split_has_a_piece(a);
    if b.len() == 0 {
        assert(a + b == a);
        assert(split_at_semicolons(a).last() + b == split_at_semicolons(a).last());
        assert(split_at_semicolons(a).update(split_at_semicolons(a).len() - 1, split_at_semicolons(a).last())
            == split_at_semicolons(a));
    } else {
        let b0 = b.drop_last();
        lemma_split_extends_last_piece(a, b0);
        assert((a + b).drop_last() == a + b0);
        assert((a + b).last() == b.last());
        let pa = split_at_semicolons(a);
        let p = split_at_semicolons(a + b0);
        assert(p == pa.update(pa.len() - 1, pa.last() + b0));
        assert(b.last() != ';');
        assert(p.len() == pa.len());
        assert(p.last() == pa.last() + b0);
        assert((pa.last() + b0).push(b.last()) == pa.last() + b);
        assert(split_at_semicolons(a + b) == p.update(p.len() - 1, p.last().push((a + b).last())));
        assert(split_at_semicolons(a + b) =~= split_at_semicolons(a).update(
            split_at_semicolons(a).len() - 1,
            split_at_semicolons(a).last() + b,
        ));
    }
}

proof fn lemma_note_name_has_no_semicolon(midi: u8)
    ensures
        forall|i: int| 0 <= i < note_name(midi as int).len() ==> note_name(midi as int)[i] != ';',
{
    let pc = pitch_class_name(midi as int % 12);
    let oct = decimal(midi / 12 - 1);
    lemma_decimal_reads_back(midi / 12 - 1);
    assert forall|i: int| 0 <= i < note_name(midi as int).len() implies note_name(midi as int)[i] != ';' by {
        if i < pc.len() {
            assert(note_name(midi as int)[i] == pc[i]);
        } else {
            assert(note_name(midi as int)[i] == oct[i - pc.len()]);
        }
    }
}

/// Every note is named, in order: split at its `;` separators, the joined
/// names give one piece per note, the name of that note (note names hold
/// no `;`). With no notes the text is empty.
pub proof fn lemma_note_names_split_back(notes: Seq<u8>)
    ensures
        notes.len() == 0 ==> joined_note_names(notes) == Seq::<char>::empty(),
        notes.len() > 0 ==> split_at_semicolons(joined_note_names(notes)) == Seq::new(
            notes.len(),
            |i: int| note_name(notes[i] as int),
        ),
    decreases notes.len(),
{
    if notes.len() == 1 {
        lemma_note_name_has_no_semicolon(notes[0]);
        lemma_split_extends_last_piece(Seq::empty(), note_name(notes[0] as int));
        assert(Seq::<char>::empty() + note_name(notes[0] as int) == note_name(notes[0] as int));
        assert(split_at_semicolons(joined_note_names(notes)) =~= Seq::new(
            notes.len(),
            |i: int| note_name(notes[i] as int),
        ));
    } else if notes.len() > 1 {
        let rest = notes.drop_last();
        lemma_note_names_split_back(rest);
        let head = joined_note_names(rest) + seq![';'];
        let last = note_name(notes.last() as int);
        lemma_note_name_has_no_semicolon(notes.last());
        lemma_split_extends_last_piece(head, last);
        assert(head.drop_last() == joined_note_names(rest));
        assert(split_at_semicolons(head) == split_at_semicolons(joined_note_names(rest)).push(Seq::empty()));
        assert(Seq::<char>::empty() + last == last);
        assert(split_at_semicolons(joined_note_names(notes)) =~= Seq::new(
            notes.len(),
            |i: int| note_name(notes[i] as int),
        ));
    }
}


/// The sounding pitch classes are exactly `root` raised by the intervals
/// of chord shape `t`.
pub open spec fn fits_shape(pcs: Set<int>, root: int, t: int) -> bool {
    forall|i: int| 0 <= i < 12 ==> (pcs.contains((root + i) % 12) == chord_template(t).contains(i))
}

proof fn lemma_fits_shape_is_intervals(pcs: Set<int>, root: int, t: int)
    ensures
        fits_shape(pcs, root, t) == (intervals_above(pcs, root) == chord_template(t)),
{
    let tpl = chord_template(t);
    assert(forall|i: int| tpl.contains(i) ==> 0 <= i < 12);
    if fits_shape(pcs, root, t) {
        assert forall|i: int| intervals_above(pcs, root).contains(i) == tpl.contains(i) by {
            if 0 <= i < 12 {
                assert((root + i) % 12 == (i + root) % 12);
            }
        }
        assert(intervals_above(pcs, root) =~= tpl);
    }
    if intervals_above(pcs, root) == tpl {
        assert forall|i: int| 0 <= i < 12 implies (pcs.contains((root + i) % 12) == tpl.contains(i)) by {
            assert(intervals_above(pcs, root).contains(i) == tpl.contains(i));
            assert((root + i) % 12 == (i + root) % 12);
        }
    }
}

proof fn lemma_template_from_finds(pcs: Set<int>, root: int, t0: int, t: int)
    requires
        0 <= t0 <= t < CHORD_TEMPLATE_COUNT,
        intervals_above(pcs, root) == chord_template(t),
    ensures
        template_from(pcs, root, t0) is Some,
    decreases t - t0,
{
    if t0 < t && intervals_above(pcs, root) != chord_template(t0) {
        lemma_template_from_finds(pcs, root, t0 + 1, t);
    }
}

proof fn lemma_template_from_is_first(pcs: Set<int>, root: int, t0: int)
    requires
        0 <= t0,
    ensures
        template_from(pcs, root, t0) matches Some(t) ==> forall|u: int|
            t0 <= u < t ==> intervals_above(pcs, root) != chord_template(u),
        template_from(pcs, root, t0) is None ==> forall|u: int|
            t0 <= u < CHORD_TEMPLATE_COUNT ==> intervals_above(pcs, root) != chord_template(u),
    decreases 10 - t0,
{
    if t0 < 10 && intervals_above(pcs, root) != chord_template(t0) {
        lemma_template_from_is_first(pcs, root, t0 + 1);
    }
}

proof fn lemma_other_root_found(pcs: Set<int>, bass: int, r0: int, r: int)
    requires
        0 <= r0 <= r < 12,
        pcs.contains(r),
        r != bass,
        chord_shape(pcs, r) is Some,
    ensures
        other_root_from(pcs, bass, r0) is Some,
    decreases r - r0,
{
    if r0 < r && !(pcs.contains(r0) && r0 != bass && chord_shape(pcs, r0) is Some) {
        lemma_other_root_found(pcs, bass, r0 + 1, r);
    }
}

proof fn lemma_other_root_is_lowest(pcs: Set<int>, bass: int, r0: int)
    requires
        0 <= r0,
    ensures
        other_root_from(pcs, bass, r0) matches Some(r) ==> forall|u: int|
            r0 <= u < r && pcs.contains(u) && u != bass ==> chord_shape(pcs, u) is None,
    decreases 12 - r0,
{
    if r0 < 12 && !(pcs.contains(r0) && r0 != bass && chord_shape(pcs, r0) is Some) {
        lemma_other_root_is_lowest(pcs, bass, r0 + 1);
    }
}

/// Whenever the sounding pitch classes are exactly some pitch class raised
/// by the intervals of one of the chord shapes, a chord is named: every
/// sounding pitch class (0..12), not only the bass, is a root that
/// `identify_chord` tries.
pub proof fn lemma_chord_found_when_a_shape_fits(notes: Seq<u8>, root: int, t: int)
    requires
        0 <= root < 12,
        0 <= t < CHORD_TEMPLATE_COUNT,
        fits_shape(pitch_classes(notes), root, t),
    ensures
        chord_root(notes) is Some,
        chord_name(notes) is Some,
{
    let pcs = pitch_classes(notes);
    let bass = bass_pitch_class(notes);
    lemma_fits_shape_is_intervals(pcs, root, t);
    lemma_shape_sounds_three(pcs, root, t);
    lemma_template_from_finds(pcs, root, 0, t);
    assert(chord_template(t).contains(0));
    assert(pcs.contains((root + 0) % 12));
    if chord_shape(pcs, bass) is None {
        lemma_other_root_found(pcs, bass, 0, root);
    }
}

/// The root that names a chord is chosen this way: the bass pitch class
/// when some shape fits over it; otherwise the lowest other sounding pitch
/// class over which some shape fits. The shape named is one that fits over
/// the root, the first of them in the order maj, min, dim, aug, sus2, sus4,
/// maj7, 7, min7, dim7, and the name is the root's name followed by that
/// shape's suffix.
pub proof fn lemma_chord_root_is_the_first_fit(notes: Seq<u8>)
    requires
        chord_root(notes) is Some,
    ensures
        ({
            let pcs = pitch_classes(notes);
            let bass = bass_pitch_class(notes);
            let root = chord_root(notes).unwrap();
            let t = chord_shape(pcs, root).unwrap();
            &&& 0 <= root < 12
            &&& pcs.contains(root)
            &&& 0 <= t < CHORD_TEMPLATE_COUNT
            &&& fits_shape(pcs, root, t)
            &&& forall|u: int| 0 <= u < t ==> !fits_shape(pcs, root, u)
            &&& root == bass || {
                &&& forall|u: int| 0 <= u < CHORD_TEMPLATE_COUNT ==> !fits_shape(pcs, bass, u)
                &&& forall|r: int, u: int|
                    0 <= r < root && r != bass && pcs.contains(r) && 0 <= u < CHORD_TEMPLATE_COUNT
                        ==> !fits_shape(pcs, r, u)
            }
            &&& chord_name(notes) == Some(pitch_class_name(root) + chord_suffix(t))
        }),
{
    let pcs = pitch_classes(notes);
    let bass = bass_pitch_class(notes);
    let root = chord_root(notes).unwrap();
    lemma_named_chord_fits_its_shape(notes);
    let t = chord_shape(pcs, root).unwrap();
    lemma_fits_shape_is_intervals(pcs, root, t);
    lemma_template_from_is_first(pcs, root, 0);
    assert forall|u: int| 0 <= u < t implies !fits_shape(pcs, root, u) by {
        lemma_fits_shape_is_intervals(pcs, root, u);
    }
    if chord_shape(pcs, bass) is None {
        lemma_other_root_sounds(pcs, bass, 0);
        lemma_other_root_is_lowest(pcs, bass, 0);
        lemma_template_from_is_first(pcs, bass, 0);
        assert forall|u: int| 0 <= u < CHORD_TEMPLATE_COUNT implies !fits_shape(pcs, bass, u) by {
            lemma_fits_shape_is_intervals(pcs, bass, u);
        }
        assert forall|r: int, u: int|
            0 <= r < root && r != bass && pcs.contains(r) && 0 <= u < CHORD_TEMPLATE_COUNT implies !fits_shape(
            pcs,
            r,
            u,
        ) by {
            assert(chord_shape(pcs, r) is None);
            lemma_template_from_is_first(pcs, r, 0);
            lemma_fits_shape_is_intervals(pcs, r, u);
        }
        assert(0 <= root < 12) by {
            lemma_other_root_in_range(pcs, bass, 0);
        }
    } else {
        assert(0 <= root < 12) by {
            assert(notes.len() > 0) by {
                let (a, b, c) = choose|a: int, b: int, c: int|
                    a < b < c && pcs.contains(a) && pcs.contains(b) && pcs.contains(c);
                assert(pcs.contains(a));
            }
            lemma_lowest_note_is_lowest(notes);
        }
    }
}

proof fn lemma_other_root_in_range(pcs: Set<int>, bass: int, r0: int)
    requires
        0 <= r0,
        other_root_from(pcs, bass, r0) is Some,
    ensures
        r0 <= other_root_from(pcs, bass, r0).unwrap() < 12,
    decreases 12 - r0,
{
    if r0 < 12 && !(pcs.contains(r0) && r0 != bass && chord_shape(pcs, r0) is Some) {
        lemma_other_root_in_range(pcs, bass, r0 + 1);
    }
}


/// Pitch class names use sharps: the natural pitch classes, ascending from
/// C, are named by the single letters C D E F G A B, and each other pitch
/// class is named by the name of the natural one semitone below followed by
/// `#` (so the octave reads C C# D D# E F F# G G# A A# B).
pub proof fn lemma_pitch_class_names_use_sharps()
    ensures
        pitch_class_name(0) == seq!['C'],
        pitch_class_name(2) == seq!['D'],
        pitch_class_name(4) == seq!['E'],
        pitch_class_name(5) == seq!['F'],
        pitch_class_name(7) == seq!['G'],
        pitch_class_name(9) == seq!['A'],
        pitch_class_name(11) == seq!['B'],
        forall|pc: int|
            0 <= pc < 12 && pc != 0 && pc != 2 && pc != 4 && pc != 5 && pc != 7 && pc != 9 && pc != 11
                ==> #[trigger] pitch_class_name(pc) == pitch_class_name(pc - 1).push('#'),
{
}

} // verus!
