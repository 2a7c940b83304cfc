//! Arabic presentation-form shaping: isolated, initial, medial and final
//! forms, and the lam-alef ligatures.

use vstd::prelude::*;
use crate::bidi::is_rtl;
use crate::text::{chars_of, string_of};

verus! {

/// ARABIC LETTER LAM, the first half of every lam-alef ligature.
pub const LAM: char = '\u{0644}';

/// The presentation forms of one letter; a form of `'\0'` means the letter has
/// no such form, and `present` is false for characters outside the table.
#[derive(Clone, Copy)]
pub struct VariantSet {
    pub iso: char,
    pub ini: char,
    pub med: char,
    pub fin: char,
    pub present: bool,
}

/// The shape table: for each Arabic letter that it covers, its presentation
/// forms; every other character has none.
pub open spec fn forms(c: char) -> VariantSet {
    match c {
        '\u{0622}' => VariantSet { iso: '\u{FE81}', ini: '\0', med: '\0', fin: '\u{FE82}', present: true },
        '\u{0623}' => VariantSet { iso: '\u{FE83}', ini: '\0', med: '\0', fin: '\u{FE84}', present: true },
        '\u{0624}' => VariantSet { iso: '\u{FE85}', ini: '\0', med: '\0', fin: '\u{FE86}', present: true },
        '\u{0625}' => VariantSet { iso: '\u{FE87}', ini: '\0', med: '\0', fin: '\u{FE88}', present: true },
        '\u{0626}' => VariantSet { iso: '\u{FE89}', ini: '\u{FE8B}', med: '\u{FE8C}', fin: '\u{FE8A}', present: true },
        '\u{0627}' => VariantSet { iso: '\u{FE8D}', ini: '\0', med: '\0', fin: '\u{FE8E}', present: true },
        '\u{0628}' => VariantSet { iso: '\u{FE8F}', ini: '\u{FE91}', med: '\u{FE92}', fin: '\u{FE90}', present: true },
        '\u{0629}' => VariantSet { iso: '\u{FE93}', ini: '\0', med: '\0', fin: '\u{FE94}', present: true },
        '\u{062A}' => VariantSet { iso: '\u{FE95}', ini: '\u{FE97}', med: '\u{FE98}', fin: '\u{FE96}', present: true },
        '\u{062B}' => VariantSet { iso: '\u{FE99}', ini: '\u{FE9B}', med: '\u{FE9C}', fin: '\u{FE9A}', present: true },
        '\u{062C}' => VariantSet { iso: '\u{FE9D}', ini: '\u{FE9F}', med: '\u{FEA0}', fin: '\u{FE9E}', present: true },
        '\u{062D}' => VariantSet { iso: '\u{FEA1}', ini: '\u{FEA3}', med: '\u{FEA4}', fin: '\u{FEA2}', present: true },
        '\u{062E}' => VariantSet { iso: '\u{FEA5}', ini: '\u{FEA7}', med: '\u{FEA8}', fin: '\u{FEA6}', present: true },
        '\u{062F}' => VariantSet { iso: '\u{FEA9}', ini: '\0', med: '\0', fin: '\u{FEAA}', present: true },
        '\u{0630}' => VariantSet { iso: '\u{FEAB}', ini: '\0', med: '\0', fin: '\u{FEAC}', present: true },
        '\u{0631}' => VariantSet { iso: '\u{FEAD}', ini: '\0', med: '\0', fin: '\u{FEAE}', present: true },
        '\u{0632}' => VariantSet { iso: '\u{FEAF}', ini: '\0', med: '\0', fin: '\u{FEB0}', present: true },
        '\u{0633}' => VariantSet { iso: '\u{FEB1}', ini: '\u{FEB3}', med: '\u{FEB4}', fin: '\u{FEB2}', present: true },
        '\u{0634}' => VariantSet { iso: '\u{FEB5}', ini: '\u{FEB7}', med: '\u{FEB8}', fin: '\u{FEB6}', present: true },
        '\u{0635}' => VariantSet { iso: '\u{FEB9}', ini: '\u{FEBB}', med: '\u{FEBC}', fin: '\u{FEBA}', present: true },
        '\u{0636}' => VariantSet { iso: '\u{FEBD}', ini: '\u{FEBF}', med: '\u{FEC0}', fin: '\u{FEBE}', present: true },
        '\u{0637}' => VariantSet { iso: '\u{FEC1}', ini: '\u{FEC3}', med: '\u{FEC4}', fin: '\u{FEC2}', present: true },
        '\u{0638}' => VariantSet { iso: '\u{FEC5}', ini: '\u{FEC7}', med: '\u{FEC8}', fin: '\u{FEC6}', present: true },
        '\u{0639}' => VariantSet { iso: '\u{FEC9}', ini: '\u{FECB}', med: '\u{FECC}', fin: '\u{FECA}', present: true },
        '\u{063A}' => VariantSet { iso: '\u{FECD}', ini: '\u{FECF}', med: '\u{FED0}', fin: '\u{FECE}', present: true },
        '\u{0641}' => VariantSet { iso: '\u{FED1}', ini: '\u{FED3}', med: '\u{FED4}', fin: '\u{FED2}', present: true },
        '\u{0642}' => VariantSet { iso: '\u{FED5}', ini: '\u{FED7}', med: '\u{FED8}', fin: '\u{FED6}', present: true },
        '\u{0643}' => VariantSet { iso: '\u{FED9}', ini: '\u{FEDB}', med: '\u{FEDC}', fin: '\u{FEDA}', present: true },
        '\u{0644}' => VariantSet { iso: '\u{FEDD}', ini: '\u{FEDF}', med: '\u{FEE0}', fin: '\u{FEDE}', present: true },
        '\u{0645}' => VariantSet { iso: '\u{FEE1}', ini: '\u{FEE3}', med: '\u{FEE4}', fin: '\u{FEE2}', present: true },
        '\u{0646}' => VariantSet { iso: '\u{FEE5}', ini: '\u{FEE7}', med: '\u{FEE8}', fin: '\u{FEE6}', present: true },
        '\u{0647}' => VariantSet { iso: '\u{FEE9}', ini: '\u{FEEB}', med: '\u{FEEC}', fin: '\u{FEEA}', present: true },
        '\u{0648}' => VariantSet { iso: '\u{FEED}', ini: '\0', med: '\0', fin: '\u{FEEE}', present: true },
        '\u{0649}' => VariantSet { iso: '\u{FEEF}', ini: '\0', med: '\0', fin: '\u{FEF0}', present: true },
        '\u{064A}' => VariantSet { iso: '\u{FEF1}', ini: '\u{FEF3}', med: '\u{FEF4}', fin: '\u{FEF2}', present: true },
        _ => VariantSet { iso: '\0', ini: '\0', med: '\0', fin: '\0', present: false },
    }
}

/// Shape-table lookup.
pub fn variants(c: char) -> (v: VariantSet)
    ensures
        v == forms(c),
{
    match c {
        '\u{0622}' => VariantSet { iso: '\u{FE81}', ini: '\0', med: '\0', fin: '\u{FE82}', present: true },
        '\u{0623}' => VariantSet { iso: '\u{FE83}', ini: '\0', med: '\0', fin: '\u{FE84}', present: true },
        '\u{0624}' => VariantSet { iso: '\u{FE85}', ini: '\0', med: '\0', fin: '\u{FE86}', present: true },
        '\u{0625}' => VariantSet { iso: '\u{FE87}', ini: '\0', med: '\0', fin: '\u{FE88}', present: true },
        '\u{0626}' => VariantSet { iso: '\u{FE89}', ini: '\u{FE8B}', med: '\u{FE8C}', fin: '\u{FE8A}', present: true },
        '\u{0627}' => VariantSet { iso: '\u{FE8D}', ini: '\0', med: '\0', fin: '\u{FE8E}', present: true },
        '\u{0628}' => VariantSet { iso: '\u{FE8F}', ini: '\u{FE91}', med: '\u{FE92}', fin: '\u{FE90}', present: true },
        '\u{0629}' => VariantSet { iso: '\u{FE93}', ini: '\0', med: '\0', fin: '\u{FE94}', present: true },
        '\u{062A}' => VariantSet { iso: '\u{FE95}', ini: '\u{FE97}', med: '\u{FE98}', fin: '\u{FE96}', present: true },
        '\u{062B}' => VariantSet { iso: '\u{FE99}', ini: '\u{FE9B}', med: '\u{FE9C}', fin: '\u{FE9A}', present: true },
        '\u{062C}' => VariantSet { iso: '\u{FE9D}', ini: '\u{FE9F}', med: '\u{FEA0}', fin: '\u{FE9E}', present: true },
        '\u{062D}' => VariantSet { iso: '\u{FEA1}', ini: '\u{FEA3}', med: '\u{FEA4}', fin: '\u{FEA2}', present: true },
        '\u{062E}' => VariantSet { iso: '\u{FEA5}', ini: '\u{FEA7}', med: '\u{FEA8}', fin: '\u{FEA6}', present: true },
        '\u{062F}' => VariantSet { iso: '\u{FEA9}', ini: '\0', med: '\0', fin: '\u{FEAA}', present: true },
        '\u{0630}' => VariantSet { iso: '\u{FEAB}', ini: '\0', med: '\0', fin: '\u{FEAC}', present: true },
        '\u{0631}' => VariantSet { iso: '\u{FEAD}', ini: '\0', med: '\0', fin: '\u{FEAE}', present: true },
        '\u{0632}' => VariantSet { iso: '\u{FEAF}', ini: '\0', med: '\0', fin: '\u{FEB0}', present: true },
        '\u{0633}' => VariantSet { iso: '\u{FEB1}', ini: '\u{FEB3}', med: '\u{FEB4}', fin: '\u{FEB2}', present: true },
        '\u{0634}' => VariantSet { iso: '\u{FEB5}', ini: '\u{FEB7}', med: '\u{FEB8}', fin: '\u{FEB6}', present: true },
        '\u{0635}' => VariantSet { iso: '\u{FEB9}', ini: '\u{FEBB}', med: '\u{FEBC}', fin: '\u{FEBA}', present: true },
        '\u{0636}' => VariantSet { iso: '\u{FEBD}', ini: '\u{FEBF}', med: '\u{FEC0}', fin: '\u{FEBE}', present: true },
        '\u{0637}' => VariantSet { iso: '\u{FEC1}', ini: '\u{FEC3}', med: '\u{FEC4}', fin: '\u{FEC2}', present: true },
        '\u{0638}' => VariantSet { iso: '\u{FEC5}', ini: '\u{FEC7}', med: '\u{FEC8}', fin: '\u{FEC6}', present: true },
        '\u{0639}' => VariantSet { iso: '\u{FEC9}', ini: '\u{FECB}', med: '\u{FECC}', fin: '\u{FECA}', present: true },
        '\u{063A}' => VariantSet { iso: '\u{FECD}', ini: '\u{FECF}', med: '\u{FED0}', fin: '\u{FECE}', present: true },
        '\u{0641}' => VariantSet { iso: '\u{FED1}', ini: '\u{FED3}', med: '\u{FED4}', fin: '\u{FED2}', present: true },
        '\u{0642}' => VariantSet { iso: '\u{FED5}', ini: '\u{FED7}', med: '\u{FED8}', fin: '\u{FED6}', present: true },
        '\u{0643}' => VariantSet { iso: '\u{FED9}', ini: '\u{FEDB}', med: '\u{FEDC}', fin: '\u{FEDA}', present: true },
        '\u{0644}' => VariantSet { iso: '\u{FEDD}', ini: '\u{FEDF}', med: '\u{FEE0}', fin: '\u{FEDE}', present: true },
        '\u{0645}' => VariantSet { iso: '\u{FEE1}', ini: '\u{FEE3}', med: '\u{FEE4}', fin: '\u{FEE2}', present: true },
        '\u{0646}' => VariantSet { iso: '\u{FEE5}', ini: '\u{FEE7}', med: '\u{FEE8}', fin: '\u{FEE6}', present: true },
        '\u{0647}' => VariantSet { iso: '\u{FEE9}', ini: '\u{FEEB}', med: '\u{FEEC}', fin: '\u{FEEA}', present: true },
        '\u{0648}' => VariantSet { iso: '\u{FEED}', ini: '\0', med: '\0', fin: '\u{FEEE}', present: true },
        '\u{0649}' => VariantSet { iso: '\u{FEEF}', ini: '\0', med: '\0', fin: '\u{FEF0}', present: true },
        '\u{064A}' => VariantSet { iso: '\u{FEF1}', ini: '\u{FEF3}', med: '\u{FEF4}', fin: '\u{FEF2}', present: true },
        _ => VariantSet { iso: '\0', ini: '\0', med: '\0', fin: '\0', present: false },
    }
}

/// Letters that do not connect to the letter that follows them: the letters
/// of the table that have no initial and no medial form.
pub open spec fn is_non_joining(c: char) -> bool {
    c == '\u{0622}' || c == '\u{0623}' || c == '\u{0624}' || c == '\u{0625}' || c == '\u{0627}'
        || c == '\u{0629}' || c == '\u{062F}' || c == '\u{0630}' || c == '\u{0631}' || c
        == '\u{0632}' || c == '\u{0648}' || c == '\u{0649}'
}

/// Letters that do NOT connect to the following letter (context rule).
pub fn breaks_context(c: char) -> (r: bool)
    ensures
        r == is_non_joining(c),
{
    match c {
        '\u{0622}' | '\u{0623}' | '\u{0624}' | '\u{0625}' | '\u{0627}' | '\u{0629}' | '\u{062F}'
        | '\u{0630}' | '\u{0631}' | '\u{0632}' | '\u{0648}' | '\u{0649}' => true,
        _ => false,
    }
}

/// Whether `c` is a letter that connects to the letter after it.
fn joins_forward(c: char) -> (r: bool)
    ensures
        r == connects_forward(c),
{
    variants(c).present && !breaks_context(c)
}

/// The lam-alef ligature that a lam forms with `next`, as its isolated and its
/// final form; `None` when `next` is not one of the four alefs.
pub open spec fn lam_alef(next: char) -> Option<(char, char)> {
    if next == '\u{0627}' {
        Some(('\u{FEFB}', '\u{FEFC}'))
    } else if next == '\u{0623}' {
        Some(('\u{FEF7}', '\u{FEF8}'))
    } else if next == '\u{0625}' {
        Some(('\u{FEF9}', '\u{FEFA}'))
    } else if next == '\u{0622}' {
        Some(('\u{FEF5}', '\u{FEF6}'))
    } else {
        None
    }
}

fn lam_alef_forms(next: char) -> (r: Option<(char, char)>)
    ensures
        r == lam_alef(next),
{
    if next == '\u{0627}' {
        Some(('\u{FEFB}', '\u{FEFC}'))
    } else if next == '\u{0623}' {
        Some(('\u{FEF7}', '\u{FEF8}'))
    } else if next == '\u{0625}' {
        Some(('\u{FEF9}', '\u{FEFA}'))
    } else if next == '\u{0622}' {
        Some(('\u{FEF5}', '\u{FEF6}'))
    } else {
        None
    }
}

/// A letter of the table that connects to the letter after it; spaces,
/// digits and every other character outside the table connect to nothing.
pub open spec fn connects_forward(c: char) -> bool {
    forms(c).present && !is_non_joining(c)
}

/// The character before position `i` of `w` connects to the one at `i`.
pub open spec fn joins_prev(w: Seq<char>, i: int) -> bool {
    i > 0 && connects_forward(w[i - 1])
}

/// The character at position `i` of `w` connects to the one after it: it
/// connects forward and the one after it is a letter of the table.
pub open spec fn joins_next(w: Seq<char>, i: int) -> bool {
    i + 1 < w.len() && connects_forward(w[i]) && forms(w[i + 1]).present
}

/// A lam at position `i` of `w` is followed by an alef it fuses with.
pub open spec fn lam_alef_at(w: Seq<char>, i: int) -> bool {
    w[i] == LAM && i + 1 < w.len() && lam_alef(w[i + 1]) is Some
}

/// The ligature that replaces the lam at `i` and the alef after it: its final
/// form when the character before the lam connects to it, else its isolated form.
pub open spec fn ligature_at(w: Seq<char>, i: int) -> char {
    let forms = lam_alef(w[i + 1]).unwrap();
    if joins_prev(w, i) {
        forms.1
    } else {
        forms.0
    }
}

/// The presentation form of the character at `i` of `w`: medial when it
/// connects on both sides, final when it connects to the one before, initial
/// when it connects to the one after (each only where the letter has that
/// form), isolated otherwise; a character outside the table is kept.
pub open spec fn form_at(w: Seq<char>, i: int) -> char {
    let v = forms(w[i]);
    let jp = joins_prev(w, i);
    let jn = joins_next(w, i);
    if !v.present {
        w[i]
    } else if jp && jn && v.med != '\0' {
        v.med
    } else if jp && v.fin != '\0' {
        v.fin
    } else if jn && v.ini != '\0' {
        v.ini
    } else {
        v.iso
    }
}

/// The shaped text of `w` from position `i` on.
pub open spec fn shape_from(w: Seq<char>, i: nat) -> Seq<char>
    decreases w.len() - i,
{
    if i >= w.len() {
        Seq::empty()
    } else if lam_alef_at(w, i as int) {
        seq![ligature_at(w, i as int)] + shape_from(w, i + 2)
    } else {
        seq![form_at(w, i as int)] + shape_from(w, i + 1)
    }
}

/// The shaped text of `w`.
pub open spec fn shaped(w: Seq<char>) -> Seq<char> {
    shape_from(w, 0)
}

/// The shape table follows the layout of the Arabic Presentation Forms-B
/// block: each letter's final form comes right after its isolated form; a
/// letter has an initial form exactly when it connects to the letter after it,
/// and then its initial and medial forms follow the final one; every form lies
/// in the block.
pub proof fn law_table_layout(c: char)
    requires
        forms(c).present,
    ensures
        forms(c).fin as u32 == forms(c).iso as u32 + 1,
        is_non_joining(c) <==> forms(c).ini == '\0',
        is_non_joining(c) ==> forms(c).med == '\0',
        !is_non_joining(c) ==> forms(c).ini as u32 == forms(c).iso as u32 + 2
            && forms(c).med as u32 == forms(c).iso as u32 + 3,
        0xFE81 <= forms(c).iso as u32 && forms(c).iso as u32 + 3 <= 0xFEF4,
{
}

/// The Arabic letter whose presentation form `form` is, by the Unicode
/// compatibility decomposition of Arabic Presentation Forms-B (U+FE81 to
/// U+FEF4, where each letter's forms come in the order isolated, final, and
/// for connecting letters initial, medial); 0 for any other character.
pub open spec fn letter_of_form(form: char) -> u32 {
    let u = form as u32;
    if u < 0xFE81 {
        0
    } else if u <= 0xFE82 {
        0x0622
    } else if u <= 0xFE84 {
        0x0623
    } else if u <= 0xFE86 {
        0x0624
    } else if u <= 0xFE88 {
        0x0625
    } else if u <= 0xFE8C {
        0x0626
    } else if u <= 0xFE8E {
        0x0627
    } else if u <= 0xFE92 {
        0x0628
    } else if u <= 0xFE94 {
        0x0629
    } else if u <= 0xFE98 {
        0x062A
    } else if u <= 0xFE9C {
        0x062B
    } else if u <= 0xFEA0 {
        0x062C
    } else if u <= 0xFEA4 {
        0x062D
    } else if u <= 0xFEA8 {
        0x062E
    } else if u <= 0xFEAA {
        0x062F
    } else if u <= 0xFEAC {
        0x0630
    } else if u <= 0xFEAE {
        0x0631
    } else if u <= 0xFEB0 {
        0x0632
    } else if u <= 0xFEB4 {
        0x0633
    } else if u <= 0xFEB8 {
        0x0634
    } else if u <= 0xFEBC {
        0x0635
    } else if u <= 0xFEC0 {
        0x0636
    } else if u <= 0xFEC4 {
        0x0637
    } else if u <= 0xFEC8 {
        0x0638
    } else if u <= 0xFECC {
        0x0639
    } else if u <= 0xFED0 {
        0x063A
    } else if u <= 0xFED4 {
        0x0641
    } else if u <= 0xFED8 {
        0x0642
    } else if u <= 0xFEDC {
        0x0643
    } else if u <= 0xFEE0 {
        0x0644
    } else if u <= 0xFEE4 {
        0x0645
    } else if u <= 0xFEE8 {
        0x0646
    } else if u <= 0xFEEC {
        0x0647
    } else if u <= 0xFEEE {
        0x0648
    } else if u <= 0xFEF0 {
        0x0649
    } else if u <= 0xFEF4 {
        0x064A
    } else {
        0
    }
}

/// The two letters that a lam-alef ligature of Arabic Presentation Forms-B
/// stands for (its Unicode compatibility decomposition): lam and the alef.
pub open spec fn ligature_letters(form: char) -> (char, char) {
    let u = form as u32;
    if u == 0xFEF5 || u == 0xFEF6 {
        ('\u{0644}', '\u{0622}')
    } else if u == 0xFEF7 || u == 0xFEF8 {
        ('\u{0644}', '\u{0623}')
    } else if u == 0xFEF9 || u == 0xFEFA {
        ('\u{0644}', '\u{0625}')
    } else if u == 0xFEFB || u == 0xFEFC {
        ('\u{0644}', '\u{0627}')
    } else {
        ('\0', '\0')
    }
}

/// Every letter is shown in its own presentation forms: each form of a letter
/// in the shape table decomposes back to that letter, and each lam-alef
/// ligature to lam and the alef it fuses; so no letter is ever displayed as
/// another one.
pub proof fn law_forms_belong_to_their_letter(c: char)
    ensures
        forms(c).present ==> letter_of_form(forms(c).iso) == c as u32 && letter_of_form(
            forms(c).fin,
        ) == c as u32,
        forms(c).present && forms(c).ini != '\0' ==> letter_of_form(forms(c).ini) == c as u32
            && letter_of_form(forms(c).med) == c as u32,
        lam_alef(c) is Some ==> ligature_letters(lam_alef(c).unwrap().0) == (LAM, c)
            && ligature_letters(lam_alef(c).unwrap().1) == (LAM, c),
{
}

/// Shaping keeps text right-to-left: every letter of the shape table, every
/// presentation form it can take and every lam-alef ligature is a
/// right-to-left character; and a ligature's final form comes right after its
/// isolated form.
pub proof fn law_shaped_forms_are_rtl(c: char)
    ensures
        forms(c).present ==> is_rtl(c) && is_rtl(forms(c).iso) && is_rtl(forms(c).fin),
        forms(c).present && forms(c).ini != '\0' ==> is_rtl(forms(c).ini) && is_rtl(
            forms(c).med,
        ),
        lam_alef(c) is Some ==> is_rtl(c) && is_rtl(lam_alef(c).unwrap().0) && is_rtl(
            lam_alef(c).unwrap().1,
        ) && lam_alef(c).unwrap().1 as u32 == lam_alef(c).unwrap().0 as u32 + 1,
{
}

proof fn lemma_shape_from_index(w: Seq<char>, i: nat, j: int)
    requires
        i <= j < w.len(),
        forall|k: int| 0 <= k < w.len() ==> !lam_alef_at(w, k),
    ensures
        shape_from(w, i).len() == w.len() - i,
        shape_from(w, i)[j - i] == form_at(w, j),
    decreases w.len() - i,
{
    lemma_shape_from_len(w, i);
    if i < j {
        lemma_shape_from_index(w, i + 1, j);
        assert(!lam_alef_at(w, i as int));
        assert(shape_from(w, i) == seq![form_at(w, i as int)] + shape_from(w, i + 1));
    } else {
        assert(!lam_alef_at(w, i as int));
    }
}

/// In a word of letters that all connect on both sides (and hold no lam-alef
/// pair), the first letter takes its initial form, the last its final form and
/// every letter between them its medial form.
pub proof fn law_joined_word_forms(w: Seq<char>)
    requires
        w.len() >= 2,
        forall|k: int| 0 <= k < w.len() ==> forms(#[trigger] w[k]).present && forms(w[k]).ini
            != '\0',
        forall|k: int| 0 <= k < w.len() ==> !lam_alef_at(w, k),
    ensures
        shaped(w).len() == w.len(),
        shaped(w)[0] == forms(w[0]).ini,
        shaped(w)[w.len() - 1] == forms(w[w.len() - 1]).fin,
        forall|k: int| 0 < k < w.len() - 1 ==> shaped(w)[k] == forms(#[trigger] w[k]).med,
{
    assert forall|k: int| 0 <= k < w.len() implies !is_non_joining(#[trigger] w[k]) && forms(
        w[k],
    ).med != '\0' && forms(w[k]).fin != '\0' by {
        assert(forms(w[k]).present);
        law_table_layout(w[k]);
    }
    lemma_shape_from_index(w, 0, 0);
    lemma_shape_from_index(w, 0, w.len() - 1);
    assert forall|k: int| 0 < k < w.len() - 1 implies shaped(w)[k] == forms(#[trigger] w[k]).med by {
        lemma_shape_from_index(w, 0, k);
        assert(forms(w[k - 1]).present && !is_non_joining(w[k - 1]));
        assert(forms(w[k + 1]).present);
    }
    assert(forms(w[1]).present);
    assert(forms(w[w.len() - 2]).present && !is_non_joining(w[w.len() - 2]));
}

/// Joining stops at anything that is not a letter of the table: a space, a
/// digit or a Latin letter between two Arabic letters leaves the letter before
/// it without a connection forward and the letter after it without one backward.
pub proof fn law_joining_stops_at_non_letters(w: Seq<char>, i: int)
    requires
        0 <= i < w.len(),
        !forms(w[i]).present,
    ensures
        !joins_next(w, i - 1),
        !joins_prev(w, i + 1),
        !joins_next(w, i),
{
}

proof fn lemma_shape_from_keeps(w: Seq<char>, i: nat)
    requires
        i <= w.len(),
        forall|k: int| 0 <= k < w.len() ==> !(#[trigger] forms(w[k])).present,
    ensures
        shape_from(w, i) == w.subrange(i as int, w.len() as int),
    decreases w.len() - i,
{
    if i < w.len() {
        assert(!forms(w[i as int]).present);
        lemma_shape_from_keeps(w, i + 1);
        assert(w.subrange(i as int, w.len() as int) =~= seq![w[i as int]] + w.subrange(
            i + 1int,
            w.len() as int,
        ));
    } else {
        assert(w.subrange(i as int, w.len() as int) =~= Seq::<char>::empty());
    }
}

/// Text in which no character has presentation forms (Latin text, digits,
/// Hebrew, ...) comes out of shaping unchanged.
pub proof fn law_shaping_keeps_unshaped_text(w: Seq<char>)
    requires
        forall|k: int| 0 <= k < w.len() ==> !(#[trigger] forms(w[k])).present,
    ensures
        shaped(w) == w,
{
    lemma_shape_from_keeps(w, 0);
    assert(w.subrange(0, w.len() as int) =~= w);
}

proof fn lemma_shape_from_len(w: Seq<char>, i: nat)
    requires
        i <= w.len(),
    ensures
        shape_from(w, i).len() <= w.len() - i,
        (forall|k: int| i <= k < w.len() ==> !lam_alef_at(w, k)) ==> shape_from(w, i).len()
            == w.len() - i,
    decreases w.len() - i,
{
    if i < w.len() {
        if lam_alef_at(w, i as int) {
            lemma_shape_from_len(w, i + 2);
        } else {
            lemma_shape_from_len(w, i + 1);
        }
    }
}

/// Shaping never lengthens a word: every character gives one presentation
/// form, except a lam and the alef after it, which give one ligature; without
/// such a pair the length is kept.
pub proof fn law_shaping_length(w: Seq<char>)
    ensures
        shaped(w).len() <= w.len(),
        (forall|k: int| 0 <= k < w.len() ==> !lam_alef_at(w, k)) ==> shaped(w).len() == w.len(),
{
    lemma_shape_from_len(w, 0);
}

/// Shapes a sequence of characters.
pub fn shape_chars(arr: &Vec<char>) -> (out: Vec<char>)
    ensures
        out@ == shaped(arr@),
{
    let n = arr.len();
    let mut out: Vec<char> = Vec::new();
    let mut i: usize = 0;
    while i < n
        invariant
            n == arr@.len(),
            i <= n,
            shaped(arr@) == out@ + shape_from(arr@, i as nat),
        decreases n - i,
    {
        let c = arr[i];
        if c == LAM && i + 1 < n {
            let nxt = arr[i + 1];
            if let Some(lig) = lam_alef_forms(nxt) {
                let prev_joins = i > 0 && joins_forward(arr[i - 1]);
                out.push(if prev_joins { lig.1 } else { lig.0 });
                i = i + 2;
                continue;
            }
        }
        let v = variants(c);
        if !v.present {
            out.push(c);
            i = i + 1;
            continue;
        }
        let has_prev = i > 0;
        let has_next = i + 1 < n;
        let joins_prev = has_prev && joins_forward(arr[i - 1]);
        let joins_next = has_next && !breaks_context(c) && variants(arr[i + 1]).present;
        let code = if joins_prev && joins_next && v.med != '\0' {
            v.med
        } else if joins_prev && v.fin != '\0' {
            v.fin
        } else if joins_next && v.ini != '\0' {
            v.ini
        } else {
            v.iso
        };
        out.push(code);
        i = i + 1;
    }
    out
}

/// Shape an Arabic run to correct presentation forms (+ lam-alef ligatures).
pub fn shape_arabic(word: &String) -> (out: String)
    ensures
        out@ == shaped(word@),
{
    let arr = chars_of(word.as_str());
    let shaped_chars = shape_chars(&arr);
    string_of(&shaped_chars)
}

} // verus!
