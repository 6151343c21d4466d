use udtaleordbog::{split_at_char, split_phones, split_syllables, strip_both, DecodeError, WordEntry};

fn strings(v: &[&str]) -> Vec<String> {
    v.iter().map(|s| s.to_string()).collect()
}

fn fields_of(e: &DecodeError) -> Vec<String> {
    match e {
        DecodeError::MalformedLine { fields } => fields.clone(),
    }
}

#[test]
fn decodes_single_syllable_word() {
    let e = WordEntry::from_line("hund;/hun/;#hun#").unwrap();
    assert_eq!(e.word, "hund");
    assert_eq!(e.pronunciation, "hun");
    assert_eq!(e.syllables, vec![strings(&["hun"])]);
}

#[test]
fn decodes_syllable_with_two_phones() {
    let e = WordEntry::from_line("kaffe;/kafə/;#kaf_fə#").unwrap();
    assert_eq!(e.word, "kaffe");
    assert_eq!(e.pronunciation, "kafə");
    assert_eq!(e.syllables, vec![strings(&["kaf", "fə"])]);
}

#[test]
fn decodes_several_syllables_in_order() {
    let e = WordEntry::from_line("kaffekop;/kafəkɔp/;#_k_a_#_f_ə_#_k_ɔ_p_#").unwrap();
    assert_eq!(
        e.syllables,
        vec![strings(&["k", "a"]), strings(&["f", "ə"]), strings(&["k", "ɔ", "p"])]
    );
}

#[test]
fn two_fields_is_malformed() {
    let e = WordEntry::from_line("bad;/bad/").unwrap_err();
    assert_eq!(fields_of(&e), strings(&["bad", "/bad/"]));
}

#[test]
fn four_fields_is_malformed() {
    let e = WordEntry::from_line("a;b;c;d").unwrap_err();
    assert_eq!(fields_of(&e), strings(&["a", "b", "c", "d"]));
}

#[test]
fn no_separator_is_malformed() {
    let e = WordEntry::from_line("").unwrap_err();
    assert_eq!(fields_of(&e), strings(&[""]));
}

#[test]
fn decoding_is_deterministic() {
    let a = WordEntry::from_line("kaffe;/kafə/;#kaf_fə#").unwrap();
    let b = WordEntry::from_line("kaffe;/kafə/;#kaf_fə#").unwrap();
    assert_eq!(a.word, b.word);
    assert_eq!(a.pronunciation, b.pronunciation);
    assert_eq!(a.syllables, b.syllables);
}

#[test]
fn undelimited_fields_pass_through() {
    let e = WordEntry::from_line("hus;hus;hu_s").unwrap();
    assert_eq!(e.pronunciation, "hus");
    assert_eq!(e.syllables, vec![strings(&["hu", "s"])]);
}

#[test]
fn empty_syllable_block_gives_one_empty_phone() {
    // An empty block is kept as one syllable with one empty phone.
    let e = WordEntry::from_line("x;/x/;##").unwrap();
    assert_eq!(e.syllables, vec![strings(&[""])]);
    assert_eq!(split_syllables(""), vec![strings(&[""])]);
    assert_eq!(split_syllables("#"), vec![strings(&[""])]);
}

#[test]
fn strip_both_removes_delimiters() {
    assert_eq!(strip_both("/hun/", '/'), "hun");
    assert_eq!(strip_both("/hun", '/'), "hun");
    assert_eq!(strip_both("hun/", '/'), "hun");
    assert_eq!(strip_both("//hun//", '/'), "/hun/");
    assert_eq!(strip_both("/", '/'), "");
    assert_eq!(strip_both("//", '/'), "");
}

#[test]
fn strip_both_without_delimiter_is_identity() {
    assert_eq!(strip_both("hun", '/'), "hun");
    assert_eq!(strip_both("", '#'), "");
    assert_eq!(strip_both("a#b", '#'), "a#b");
    assert_eq!(strip_both("kaf_fə", '_'), "kaf_fə");
}

#[test]
fn split_keeps_empty_pieces() {
    assert_eq!(split_at_char("", ';'), strings(&[""]));
    assert_eq!(split_at_char("a;b", ';'), strings(&["a", "b"]));
    assert_eq!(split_at_char(";;", ';'), strings(&["", "", ""]));
    assert_eq!(split_at_char("æø;å", ';'), strings(&["æø", "å"]));
}

#[test]
fn split_phones_trims_and_splits() {
    assert_eq!(split_phones("_kaf_fə_"), strings(&["kaf", "fə"]));
    assert_eq!(split_phones("a__b"), strings(&["a", "", "b"]));
    assert_eq!(split_phones(""), strings(&[""]));
}
