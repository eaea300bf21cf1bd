//! Musical names: rhythm grids, key signatures and spelled pitches.

use vstd::prelude::*;
use crate::rat::{Rat, reduce};
use crate::text::{decimal, decimal_text, push_chars, push_str};

verus! {

/// Name of a grid that is one whole note divided by `den`, when it has one.
pub open spec fn grid_unit_name(den: int) -> Option<Seq<char>> {
    if den == 1 { Some("whole_note"@) }
    else if den == 2 { Some("half_note"@) }
    else if den == 4 { Some("quarter_note"@) }
    else if den == 8 { Some("8th_note"@) }
    else if den == 16 { Some("16th_note"@) }
    else if den == 32 { Some("32nd_note"@) }
    else if den == 64 { Some("64th_note"@) }
    else if den == 128 { Some("128th_note"@) }
    else if den == 3 { Some("half_triplet"@) }
    else if den == 6 { Some("quarter_triplet"@) }
    else if den == 12 { Some("8th_triplet"@) }
    else if den == 24 { Some("16th_triplet"@) }
    else if den == 48 { Some("32nd_triplet"@) }
    else { None }
}

/// The whole-note divisor named by a grid unit name (the inverse of
/// [`grid_unit_name`]).
pub open spec fn unit_divisor(name: Seq<char>) -> Option<int> {
    if name == "whole_note"@ { Some(1) }
    else if name == "half_note"@ { Some(2) }
    else if name == "quarter_note"@ { Some(4) }
    else if name == "8th_note"@ { Some(8) }
    else if name == "16th_note"@ { Some(16) }
    else if name == "32nd_note"@ { Some(32) }
    else if name == "64th_note"@ { Some(64) }
    else if name == "128th_note"@ { Some(128) }
    else if name == "half_triplet"@ { Some(3) }
    else if name == "quarter_triplet"@ { Some(6) }
    else if name == "8th_triplet"@ { Some(12) }
    else if name == "16th_triplet"@ { Some(24) }
    else if name == "32nd_triplet"@ { Some(48) }
    else { None }
}

/// The note value a grid name stands for, in quarter notes: one whole note
/// (four quarters) divided by the name's divisor.
pub open spec fn note_value_spec(name: Seq<char>) -> Option<Rat> {
    match unit_divisor(name) {
        Some(d) => Some(Rat::from_pair(reduce(4, d))),
        None => None,
    }
}

/// The note value of a rhythm-grid name such as `16th_note` or
/// `8th_triplet`, in quarter notes; `None` for a name that is not one.
pub fn note_value_from_name(name: &str) -> (r: Option<Rat>)
    ensures
        r == note_value_spec(name@),
        r matches Some(g) ==> g.wf() && 1 <= g.num <= 4 && 1 <= g.den <= 128,
{
    let n = crate::text::chars_of(name);
    let d: i64 = if crate::text::chars_eq(&n, "whole_note") { 1 }
        else if crate::text::chars_eq(&n, "half_note") { 2 }
        else if crate::text::chars_eq(&n, "quarter_note") { 4 }
        else if crate::text::chars_eq(&n, "8th_note") { 8 }
        else if crate::text::chars_eq(&n, "16th_note") { 16 }
        else if crate::text::chars_eq(&n, "32nd_note") { 32 }
        else if crate::text::chars_eq(&n, "64th_note") { 64 }
        else if crate::text::chars_eq(&n, "128th_note") { 128 }
        else if crate::text::chars_eq(&n, "half_triplet") { 3 }
        else if crate::text::chars_eq(&n, "quarter_triplet") { 6 }
        else if crate::text::chars_eq(&n, "8th_triplet") { 12 }
        else if crate::text::chars_eq(&n, "16th_triplet") { 24 }
        else if crate::text::chars_eq(&n, "32nd_triplet") { 48 }
        else { 0 };
    if d == 0 {
        return None;
    }
    let g = Rat::new(4, d);
    proof {
        crate::rat::lemma_reduce_props(4, d as int);
        let p = reduce(4, d as int);
        assert(p.0 * d == 4 * p.1);
        assert(p.0 > 0) by (nonlinear_arith) requires p.0 * d == 4 * p.1, d > 0, p.1 > 0;
    }
    Some(g)
}

/// The grid (in quarter notes) as a reduced fraction of a whole note.
pub open spec fn whole_fraction(grid: Rat) -> (int, int) {
    reduce(grid.num as int, 4 * grid.den)
}

/// Human-readable grid name: `16th_note`, `8th_triplet`, … for unit
/// fractions of a whole note, otherwise `n/d_whole_note`.
pub open spec fn grid_name_spec(grid: Rat) -> Seq<char> {
    let w = whole_fraction(grid);
    match (if w.0 == 1 { grid_unit_name(w.1) } else { None }) {
        Some(name) => name,
        None => decimal(w.0) + "/"@ + decimal(w.1) + "_whole_note"@,
    }
}

/// Each grid unit name reads back as its whole-note divisor.
proof fn lemma_unit_name_divisor(den: int)
    requires
        grid_unit_name(den) is Some,
    ensures
        unit_divisor(grid_unit_name(den)->Some_0) == Some(den),
{
    reveal_strlit("whole_note");
    reveal_strlit("half_note");
    reveal_strlit("quarter_note");
    reveal_strlit("8th_note");
    reveal_strlit("16th_note");
    reveal_strlit("32nd_note");
    reveal_strlit("64th_note");
    reveal_strlit("128th_note");
    reveal_strlit("half_triplet");
    reveal_strlit("quarter_triplet");
    reveal_strlit("8th_triplet");
    reveal_strlit("16th_triplet");
    reveal_strlit("32nd_triplet");
    let name = grid_unit_name(den)->Some_0;
    assert("whole_note"@.len() == 10 && "whole_note"@[0] == 'w');
    assert("half_note"@.len() == 9 && "half_note"@[0] == 'h');
    assert("quarter_note"@.len() == 12 && "quarter_note"@[0] == 'q');
    assert("8th_note"@.len() == 8 && "8th_note"@[0] == '8');
    assert("16th_note"@.len() == 9 && "16th_note"@[0] == '1');
    assert("32nd_note"@.len() == 9 && "32nd_note"@[0] == '3');
    assert("64th_note"@.len() == 9 && "64th_note"@[0] == '6');
    assert("128th_note"@.len() == 10 && "128th_note"@[0] == '1');
    assert("half_triplet"@.len() == 12 && "half_triplet"@[0] == 'h');
    assert("quarter_triplet"@.len() == 15 && "quarter_triplet"@[0] == 'q');
    assert("8th_triplet"@.len() == 11 && "8th_triplet"@[0] == '8');
    assert("16th_triplet"@.len() == 12 && "16th_triplet"@[0] == '1');
    assert("32nd_triplet"@.len() == 12 && "32nd_triplet"@[0] == '3');
    assert(name.len() > 0);
}

/// The rhythm-grid name written for a grid that is a named unit fraction of
/// a whole note reads back as a grid of the same length: the converter's
/// `rhythm_grid` and the comparer's reading of it agree.
pub proof fn lemma_grid_name_round_trip(grid: Rat)
    requires
        grid.num > 0,
        grid.den > 0,
        whole_fraction(grid).0 == 1,
        grid_unit_name(whole_fraction(grid).1) is Some,
    ensures
        note_value_spec(grid_name_spec(grid)) matches Some(g) && g.same_value(grid),
{
    let w = whole_fraction(grid);
    let d = w.1;
    crate::rat::lemma_reduce_props(grid.num as int, 4 * grid.den);
    assert(4 * grid.den == grid.num * d);
    lemma_unit_name_divisor(d);
    assert(1 <= d <= 128);
    crate::rat::lemma_reduce_props(4, d);
    let q = reduce(4, d);
    assert(q.0 * d == 4 * q.1);
    assert(0 < q.1 <= d);
    assert(q.0 > 0) by (nonlinear_arith) requires q.0 * d == 4 * q.1, d > 0, q.1 > 0;
    assert(q.0 <= 4) by (nonlinear_arith) requires q.0 * d == 4 * q.1, d > 0, q.1 <= d;
    let g = Rat::from_pair(q);
    assert(g.num == q.0 && g.den == q.1);
    assert(q.0 * grid.den == grid.num * q.1) by (nonlinear_arith)
        requires q.0 * d == 4 * q.1, 4 * grid.den == grid.num * d, d > 0;
}

/// Names the rhythm grid (see [`grid_name_spec`]).
pub fn grid_name(grid: Rat) -> (r: Vec<char>)
    requires
        grid.den > 0,
        4 * grid.den <= i64::MAX,
    ensures
        r@ == grid_name_spec(grid),
{
    let whole = Rat::new(grid.num, grid.den * 4);
    proof {
        assert(4 * grid.den == grid.den * 4);
        crate::rat::lemma_reduce_fits(grid.num as int, 4 * grid.den);
    }
    let mut r: Vec<char> = Vec::new();
    if whole.num == 1 {
        let d = whole.den;
        if d == 1 { push_str(&mut r, "whole_note"); return r; }
        if d == 2 { push_str(&mut r, "half_note"); return r; }
        if d == 4 { push_str(&mut r, "quarter_note"); return r; }
        if d == 8 { push_str(&mut r, "8th_note"); return r; }
        if d == 16 { push_str(&mut r, "16th_note"); return r; }
        if d == 32 { push_str(&mut r, "32nd_note"); return r; }
        if d == 64 { push_str(&mut r, "64th_note"); return r; }
        if d == 128 { push_str(&mut r, "128th_note"); return r; }
        if d == 3 { push_str(&mut r, "half_triplet"); return r; }
        if d == 6 { push_str(&mut r, "quarter_triplet"); return r; }
        if d == 12 { push_str(&mut r, "8th_triplet"); return r; }
        if d == 24 { push_str(&mut r, "16th_triplet"); return r; }
        if d == 48 { push_str(&mut r, "32nd_triplet"); return r; }
    }
    let n = decimal_text(whole.num);
    push_chars(&mut r, &n);
    push_str(&mut r, "/");
    let d = decimal_text(whole.den);
    push_chars(&mut r, &d);
    push_str(&mut r, "_whole_note");
    r
}

/// Major key with `i - 7` sharps (negative: flats).
pub open spec fn major_key(i: int) -> Seq<char> {
    if i == 0 { "Cb"@ } else if i == 1 { "Gb"@ } else if i == 2 { "Db"@ } else if i == 3 { "Ab"@ }
    else if i == 4 { "Eb"@ } else if i == 5 { "Bb"@ } else if i == 6 { "F"@ } else if i == 7 { "C"@ }
    else if i == 8 { "G"@ } else if i == 9 { "D"@ } else if i == 10 { "A"@ } else if i == 11 { "E"@ }
    else if i == 12 { "B"@ } else if i == 13 { "F#"@ } else { "C#"@ }
}

/// Minor key with `i - 7` sharps (negative: flats).
pub open spec fn minor_key(i: int) -> Seq<char> {
    if i == 0 { "Ab"@ } else if i == 1 { "Eb"@ } else if i == 2 { "Bb"@ } else if i == 3 { "F"@ }
    else if i == 4 { "C"@ } else if i == 5 { "G"@ } else if i == 6 { "D"@ } else if i == 7 { "A"@ }
    else if i == 8 { "E"@ } else if i == 9 { "B"@ } else if i == 10 { "F#"@ } else if i == 11 { "C#"@ }
    else if i == 12 { "G#"@ } else if i == 13 { "D#"@ } else { "A#"@ }
}

/// Key name from a circle-of-fifths position: `-4` is "Ab major" or
/// "F minor"; positions outside -7..=7 have no name.
pub open spec fn key_name_spec(fifths: int, minor: bool) -> Option<Seq<char>> {
    let i = fifths + 7;
    if 0 <= i < 15 {
        Some(if minor { minor_key(i) + " minor"@ } else { major_key(i) + " major"@ })
    } else {
        None
    }
}

fn push_major(r: &mut Vec<char>, i: i64)
    requires
        0 <= i < 15,
    ensures
        final(r)@ == old(r)@ + major_key(i as int),
{
    if i == 0 { push_str(r, "Cb") } else if i == 1 { push_str(r, "Gb") } else if i == 2 { push_str(r, "Db") }
    else if i == 3 { push_str(r, "Ab") } else if i == 4 { push_str(r, "Eb") } else if i == 5 { push_str(r, "Bb") }
    else if i == 6 { push_str(r, "F") } else if i == 7 { push_str(r, "C") } else if i == 8 { push_str(r, "G") }
    else if i == 9 { push_str(r, "D") } else if i == 10 { push_str(r, "A") } else if i == 11 { push_str(r, "E") }
    else if i == 12 { push_str(r, "B") } else if i == 13 { push_str(r, "F#") } else { push_str(r, "C#") }
}

fn push_minor(r: &mut Vec<char>, i: i64)
    requires
        0 <= i < 15,
    ensures
        final(r)@ == old(r)@ + minor_key(i as int),
{
    if i == 0 { push_str(r, "Ab") } else if i == 1 { push_str(r, "Eb") } else if i == 2 { push_str(r, "Bb") }
    else if i == 3 { push_str(r, "F") } else if i == 4 { push_str(r, "C") } else if i == 5 { push_str(r, "G") }
    else if i == 6 { push_str(r, "D") } else if i == 7 { push_str(r, "A") } else if i == 8 { push_str(r, "E") }
    else if i == 9 { push_str(r, "B") } else if i == 10 { push_str(r, "F#") } else if i == 11 { push_str(r, "C#") }
    else if i == 12 { push_str(r, "G#") } else if i == 13 { push_str(r, "D#") } else { push_str(r, "A#") }
}

/// Names a key signature (see [`key_name_spec`]).
pub fn key_name(fifths: i32, minor: bool) -> (r: Option<Vec<char>>)
    ensures
        match key_name_spec(fifths as int, minor) {
            Some(s) => r matches Some(v) && v@ == s,
            None => r is None,
        },
{
    let i = fifths as i64 + 7;
    if i < 0 || i >= 15 {
        return None;
    }
    let mut r: Vec<char> = Vec::new();
    if minor {
        push_minor(&mut r, i);
        push_str(&mut r, " minor");
    } else {
        push_major(&mut r, i);
        push_str(&mut r, " major");
    }
    Some(r)
}

/// Semitone of a pitch letter above C.
pub open spec fn letter_semitone(c: char) -> Option<int> {
    if c == 'C' { Some(0) } else if c == 'D' { Some(2) } else if c == 'E' { Some(4) }
    else if c == 'F' { Some(5) } else if c == 'G' { Some(7) } else if c == 'A' { Some(9) }
    else if c == 'B' { Some(11) } else { None }
}

/// MIDI note of a spelled pitch: `(octave + 1) * 12 + letter + alter`, when
/// it lies in 0..=127 (so C4 is 60).
pub open spec fn midi_of_spelling(letter: char, alter: int, octave: int) -> Option<int> {
    match letter_semitone(letter) {
        None => None,
        Some(s) => {
            let m = (octave + 1) * 12 + s + alter;
            if 0 <= m <= 127 { Some(m) } else { None }
        },
    }
}

/// The MIDI note of a spelled pitch: C, D, E, F, G, A and B sit 0, 2, 4, 5,
/// 7, 9 and 11 semitones above the octave's C, octave `o` starts at
/// `(o + 1) * 12` (so C4 is 60 and A4 is 69), and `alter` shifts by
/// semitones; a pitch outside 0..=127 and any other letter have none.
pub proof fn lemma_spelled_pitches(letter: char, alter: int, octave: int)
    ensures
        ({
            let base = (octave + 1) * 12 + alter;
            let in_range = |m: int| 0 <= m <= 127;
            &&& letter == 'C' ==> midi_of_spelling(letter, alter, octave) == (if in_range(base) { Some(base) } else { None })
            &&& letter == 'D' ==> midi_of_spelling(letter, alter, octave) == (if in_range(base + 2) { Some(base + 2) } else { None })
            &&& letter == 'E' ==> midi_of_spelling(letter, alter, octave) == (if in_range(base + 4) { Some(base + 4) } else { None })
            &&& letter == 'F' ==> midi_of_spelling(letter, alter, octave) == (if in_range(base + 5) { Some(base + 5) } else { None })
            &&& letter == 'G' ==> midi_of_spelling(letter, alter, octave) == (if in_range(base + 7) { Some(base + 7) } else { None })
            &&& letter == 'A' ==> midi_of_spelling(letter, alter, octave) == (if in_range(base + 9) { Some(base + 9) } else { None })
            &&& letter == 'B' ==> midi_of_spelling(letter, alter, octave) == (if in_range(base + 11) { Some(base + 11) } else { None })
            &&& !(letter == 'C' || letter == 'D' || letter == 'E' || letter == 'F' || letter == 'G' || letter == 'A'
                || letter == 'B') ==> midi_of_spelling(letter, alter, octave) is None
        }),
{
}

/// Maps a spelled pitch to its MIDI note (see [`midi_of_spelling`]).
pub fn midi_from_spelling(letter: char, alter: i64, octave: i64) -> (r: Option<i64>)
    ensures
        r == (match midi_of_spelling(letter, alter as int, octave as int) {
            Some(m) => Some(m as i64),
            None => None::<i64>,
        }),
{
    let s: i64 = if letter == 'C' { 0 } else if letter == 'D' { 2 } else if letter == 'E' { 4 }
        else if letter == 'F' { 5 } else if letter == 'G' { 7 } else if letter == 'A' { 9 }
        else if letter == 'B' { 11 } else { return None; };
    let o = octave as i128 + 1;
    let m = o * 12 + s as i128 + alter as i128;
    if m < 0 || m > 127 {
        None
    } else {
        Some(m as i64)
    }
}

} // verus!
