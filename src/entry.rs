use vstd::prelude::*;

use crate::split::{lemma_split_len, occurrences, split_at_char, split_on, views};
use crate::strip::{strip_both, stripped};

verus! {

/// The separator between the three fields of a line.
pub const FIELD_SEP: char = ';';

/// The delimiter around the pronunciation.
pub const PRONUNCIATION_DELIM: char = '/';

/// The delimiter around and between syllables.
pub const SYLLABLE_SEP: char = '#';

/// The delimiter around and between the phones of a syllable.
pub const PHONE_SEP: char = '_';

/// One decoded dictionary record.
#[derive(Debug)]
pub struct WordEntry {
    pub word: String,
    pub pronunciation: String,
    pub syllables: Vec<Vec<String>>,
}

/// What a `WordEntry` holds, as character sequences.
pub struct WordEntryView {
    pub word: Seq<char>,
    pub pronunciation: Seq<char>,
    pub syllables: Seq<Seq<Seq<char>>>,
}

/// The views of a list of syllables.
pub open spec fn syllable_views(v: Seq<Vec<String>>) -> Seq<Seq<Seq<char>>> {
    v.map_values(|x: Vec<String>| views(x@))
}

impl View for WordEntry {
    type V = WordEntryView;

    open spec fn view(&self) -> WordEntryView {
        WordEntryView {
            word: self.word@,
            pronunciation: self.pronunciation@,
            syllables: syllable_views(self.syllables@),
        }
    }
}

/// Why a line could not be decoded.
#[derive(Debug)]
pub enum DecodeError {
    /// The line does not split into exactly three fields; `fields` holds the
    /// pieces it did split into.
    MalformedLine { fields: Vec<String> },
}

/// The phones of one syllable: one `_` trimmed from each end, then split at `_`.
pub open spec fn phones_of(syllable: Seq<char>) -> Seq<Seq<char>> {
    split_on(stripped(syllable, PHONE_SEP), PHONE_SEP)
}

/// The syllables of a syllable block: one `#` trimmed from each end, split at
/// `#`, and each piece split into its phones.
pub open spec fn syllables_of(block: Seq<char>) -> Seq<Seq<Seq<char>>> {
    split_on(stripped(block, SYLLABLE_SEP), SYLLABLE_SEP).map_values(|p: Seq<char>| phones_of(p))
}

/// The entry a line decodes to, or `None` where it does not have exactly
/// three fields.
pub open spec fn decode_line(line: Seq<char>) -> Option<WordEntryView> {
    let f = split_on(line, FIELD_SEP);
    if f.len() == 3 {
        Some(
            WordEntryView {
                word: f[0],
                pronunciation: stripped(f[1], PRONUNCIATION_DELIM),
                syllables: syllables_of(f[2]),
            },
        )
    } else {
        None
    }
}

/// Decoding is a function of the line: whenever two entries are both what
/// one line decodes to, they are the same entry; and a line with exactly
/// two `;` always decodes.
pub proof fn lemma_decoding_deterministic(line: Seq<char>, a: WordEntryView, b: WordEntryView)
    requires
        decode_line(line) == Some(a),
        decode_line(line) == Some(b),
    ensures
        a == b,
        occurrences(line, FIELD_SEP) == 2 ==> decode_line(line) is Some,
{
    lemma_split_len(line, FIELD_SEP);
}

/// A line with fewer or more than two `;` fails to decode, whatever its
/// fields hold, and one with exactly two decodes.
pub proof fn lemma_malformed_iff_separators(line: Seq<char>)
    ensures
        decode_line(line) is None <==> occurrences(line, FIELD_SEP) != 2,
{
    lemma_split_len(line, FIELD_SEP);
}

/// Trimming a delimiter that is at neither end leaves the text unchanged;
/// this holds for `/` on the pronunciation, `#` on the syllable block and
/// `_` on each syllable alike.
pub proof fn lemma_strip_absent(s: Seq<char>, c: char)
    requires
        s.len() == 0 || (s[0] != c && s.last() != c),
    ensures
        stripped(s, c) == s,
{
}

/// A syllable block that is empty once its `#` are trimmed gives exactly one
/// syllable, holding exactly one empty phone.
pub proof fn lemma_empty_block(block: Seq<char>)
    requires
        stripped(block, SYLLABLE_SEP).len() == 0,
    ensures
        syllables_of(block) == seq![seq![Seq::<char>::empty()]],
        syllables_of(block).len() == 1,
        syllables_of(block)[0].len() == 1,
        syllables_of(block)[0][0].len() == 0,
{
    let e = Seq::<char>::empty();
    assert(stripped(block, SYLLABLE_SEP) =~= e);
    assert(stripped(e, PHONE_SEP) =~= e);
    assert(syllables_of(block) =~= seq![seq![e]]);
}

/// Splits one syllable into its phones.
pub fn split_phones(syllable: &str) -> (r: Vec<String>)
    ensures
        views(r@) == phones_of(syllable@),
{
    split_at_char(strip_both(syllable, PHONE_SEP), PHONE_SEP)
}

/// Splits a syllable block into syllables, each a list of phones.
pub fn split_syllables(block: &str) -> (r: Vec<Vec<String>>)
    ensures
        syllable_views(r@) == syllables_of(block@),
{
    let pieces = split_at_char(strip_both(block, SYLLABLE_SEP), SYLLABLE_SEP);
    let ghost target = syllables_of(block@);
    let mut out: Vec<Vec<String>> = Vec::new();
    let mut j: usize = 0;
    while j < pieces.len()
        invariant
            j <= pieces@.len(),
            views(pieces@) == split_on(stripped(block@, SYLLABLE_SEP), SYLLABLE_SEP),
            target == syllables_of(block@),
            target.len() == pieces@.len(),
            syllable_views(out@) == target.take(j as int),
        decreases pieces@.len() - j,
    {
        let phones = split_phones(pieces[j].as_str());
        let ghost before = out@;
        out.push(phones);
        proof {
            assert(views(pieces@)[j as int] == pieces@[j as int]@);
            assert(syllable_views(out@) =~= syllable_views(before).push(views(phones@)));
            assert(target.take(j + 1) =~= target.take(j as int).push(target[j as int]));
        }
        j = j + 1;
    }
    assert(target.take(j as int) =~= target);
    out
}

impl WordEntry {
    /// Decodes one line `word;pronunciation;syllables`. A line that does not
    /// split at `;` into exactly three fields is refused with the pieces it
    /// did split into.
    pub fn from_line(line: &str) -> (r: Result<WordEntry, DecodeError>)
        ensures
            r is Ok <==> split_on(line@, FIELD_SEP).len() == 3,
            r is Ok ==> decode_line(line@) == Some(r->Ok_0@),
            match r {
                Ok(_) => true,
                Err(DecodeError::MalformedLine { fields }) => views(fields@) == split_on(
                    line@,
                    FIELD_SEP,
                ),
            },
    {
        let fields = split_at_char(line, FIELD_SEP);
        if fields.len() != 3 {
            return Err(DecodeError::MalformedLine { fields });
        }
        proof {
            assert(views(fields@)[0] == fields@[0]@);
            assert(views(fields@)[1] == fields@[1]@);
            assert(views(fields@)[2] == fields@[2]@);
        }
        let word = fields[0].clone();
        let pronunciation = strip_both(fields[1].as_str(), PRONUNCIATION_DELIM).to_owned();
        let syllables = split_syllables(fields[2].as_str());
        let e = WordEntry { word, pronunciation, syllables };
        Ok(e)
    }
}

} // verus!
