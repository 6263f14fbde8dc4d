use mathema::language::Language;

#[test]
fn push_giasou() {
    let string = &mut String::new();
    for c in "g;iasoy".chars() {
        Language::Greek.push_char(c, string);
    }

    assert_eq!(&string[..], "γίασου");
}

#[test]
fn push_throizw() {
    let string = &mut String::new();
    for c in "uro:;izv".chars() {
        Language::Greek.push_char(c, string);
    }

    assert_eq!(&string[..], "θροΐζω");
}

#[test]
fn push_throizw2() {
    let string = &mut String::new();
    for c in "uro;:izv".chars() {
        Language::Greek.push_char(c, string);
    }

    assert_eq!(&string[..], "θροΐζω");
}

#[test]
fn push_throizw3() {
    let string = &mut String::new();
    for c in "uro:;azv".chars() {
        Language::Greek.push_char(c, string);
    }

    assert_eq!(&string[..], "θρο:άζω");
}

#[test]
fn transliterate_giasou() {
    assert_eq!(Language::Greek.transliterate("g;iasoy"), "γίασου");
    assert_eq!(Language::Greek.transliterate("ftervt;ow"), "φτερωτός");
}

#[test]
fn transliterate_english_is_identity() {
    assert_eq!(Language::English.transliterate("hello, world"), "hello, world");
}

#[test]
fn transliterate_uppercase_accents() {
    assert_eq!(Language::Greek.transliterate(";Oxi"), "Όχι");
    assert_eq!(Language::Greek.transliterate("Au;hna"), "Αθήνα");
}

#[test]
fn abbreviations_and_names() {
    assert_eq!(Language::Greek.abbreviation(), "gr");
    assert_eq!(Language::English.abbreviation(), "en");
    assert_eq!(Language::English.full_name(), "English");
    assert_eq!(Language::Greek.full_name(), "Ελληνικά");
    assert_eq!(Language::from_abbreviation("gr"), Some(Language::Greek));
    assert_eq!(Language::from_abbreviation("en"), Some(Language::English));
    assert_eq!(Language::from_abbreviation("fr"), None);
}
